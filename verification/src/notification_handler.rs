//! The status notification protocol: a line-oriented `KEY=VALUE` stream a
//! service writes to its notify socket. `READY` moves a starting service to
//! `Running`; `STATUS` appends to its status messages; unknown keys are
//! ignored. The parser consumes whole lines from the service's buffer and
//! keeps a partial final line for the next arrival.

use vstd::prelude::*;
use crate::units::{Service, ServiceStatus};

verus! {

/// Index of the first occurrence of `c` in `s`, or -1 when `c` is absent.
pub open spec fn find_char(s: Seq<char>, c: char) -> int
    decreases s.len(),
{
    if s.len() == 0 {
        -1
    } else if s[0] == c {
        0
    } else {
        let r = find_char(s.drop_first(), c);
        if r < 0 {
            -1
        } else {
            r + 1
        }
    }
}

/// `find_char` returns -1 exactly when `c` is absent, and otherwise the
/// least index holding `c`.
pub proof fn lemma_find_char_spec(s: Seq<char>, c: char)
    ensures
        find_char(s, c) == -1 || 0 <= find_char(s, c) < s.len(),
        find_char(s, c) >= 0 ==> s[find_char(s, c)] == c,
        forall|j: int| 0 <= j < find_char(s, c) ==> s[j] != c,
        find_char(s, c) == -1 ==> forall|j: int| 0 <= j < s.len() ==> s[j] != c,
    decreases s.len(),
{
    if s.len() == 0 {
    } else if s[0] == c {
    } else {
        let s1 = s.drop_first();
        lemma_find_char_spec(s1, c);
        let r = find_char(s1, c);
        assert(forall|j: int| 0 <= j < s1.len() ==> s1[j] == s[j + 1]);
        if r < 0 {
            assert forall|j: int| 0 <= j < s.len() implies s[j] != c by {
                if j > 0 {
                    assert(s1[j - 1] != c);
                }
            }
        } else {
            assert(find_char(s, c) == r + 1);
            assert(s1[r] == c);
            assert forall|j: int| 0 <= j < r + 1 implies s[j] != c by {
                if j > 0 {
                    assert(s1[j - 1] != c);
                }
            }
        }
    }
}

/// The key of a record line: the text before the first `=`, or the whole
/// line when there is none.
pub open spec fn line_key(line: Seq<char>) -> Seq<char> {
    let e = find_char(line, '=');
    if e >= 0 {
        line.subrange(0, e)
    } else {
        line
    }
}

/// The value of a record line: the text after the first `=`, or empty when
/// there is none.
pub open spec fn line_value(line: Seq<char>) -> Seq<char> {
    let e = find_char(line, '=');
    if e >= 0 {
        line.subrange(e + 1, line.len() as int)
    } else {
        Seq::empty()
    }
}

/// The effect of dispatching one record line on a service's status and
/// status-message list. `READY` moves a starting service to `Running`;
/// `STATUS` appends its value; anything else is ignored.
pub open spec fn apply_line(
    line: Seq<char>,
    status: ServiceStatus,
    msgs: Seq<Seq<char>>,
) -> (ServiceStatus, Seq<Seq<char>>) {
    if line_key(line) == "READY"@ {
        (
            if status == ServiceStatus::Starting {
                ServiceStatus::Running
            } else {
                status
            },
            msgs,
        )
    } else if line_key(line) == "STATUS"@ {
        (status, msgs.push(line_value(line)))
    } else {
        (status, msgs)
    }
}

/// The effect of draining a notification buffer: while a newline is present,
/// split off the first line, dispatch it, and continue on the remainder.
/// Returns the retained partial line together with the resulting status and
/// status-message list.
pub open spec fn drain_model(
    buf: Seq<char>,
    status: ServiceStatus,
    msgs: Seq<Seq<char>>,
) -> (Seq<char>, ServiceStatus, Seq<Seq<char>>)
    decreases buf.len(),
{
    let i = find_char(buf, '\n');
    if 0 <= i < buf.len() {
        let line = buf.subrange(0, i);
        let rest = buf.subrange(i + 1, buf.len() as int);
        let sm = apply_line(line, status, msgs);
        drain_model(rest, sm.0, sm.1)
    } else {
        (buf, status, msgs)
    }
}

/// Fields of a service the notification protocol never touches.
pub open spec fn parse_frame(pre: Service, post: Service) -> bool {
    &&& post.exec_config == pre.exec_config
    &&& post.activated_by == pre.activated_by
    &&& post.restart == pre.restart
    &&& post.wants_notify == pre.wants_notify
    &&& post.pid == pre.pid
    &&& post.stdout_dup == pre.stdout_dup
    &&& post.stderr_dup == pre.stderr_dup
    &&& post.notifications == pre.notifications
}

/// Character-wise string equality.
fn str_equal(a: &str, b: &str) -> (r: bool)
    ensures
        r == (a@ == b@),
{
    let an = a.unicode_len();
    let bn = b.unicode_len();
    if an != bn {
        proof {
            assert(a@.len() != b@.len());
        }
        return false;
    }
    let mut i: usize = 0;
    while i < an
        invariant
            an == a@.len(),
            bn == b@.len(),
            an == bn,
            i <= an,
            forall|j: int| 0 <= j < i ==> a@[j] == b@[j],
        decreases an - i,
    {
        if a.get_char(i) != b.get_char(i) {
            return false;
        }
        i += 1;
    }
    proof {
        assert(a@ =~= b@);
    }
    true
}

/// Index of the first occurrence of `c` in `s`, scanning left to right.
fn find_char_in(s: &str, c: char) -> (r: Option<usize>)
    ensures
        match r {
            Some(i) => 0 <= i < s@.len() && find_char(s@, c) == i,
            None => find_char(s@, c) == -1,
        },
{
    let n = s.unicode_len();
    let mut i: usize = 0;
    while i < n
        invariant
            n == s@.len(),
            i <= n,
            forall|j: int| 0 <= j < i ==> s@[j] != c,
        decreases n - i,
    {
        if s.get_char(i) == c {
            proof {
                lemma_find_char_spec(s@, c);
                let f = find_char(s@, c);
                assert(f != -1);
                if f < i {
                    assert(s@[f] == c);
                    assert(false);
                }
                if f > i as int {
                    assert(s@[i as int] != c);
                    assert(false);
                }
            }
            return Some(i);
        }
        i += 1;
    }
    proof {
        lemma_find_char_spec(s@, c);
        let f = find_char(s@, c);
        if f >= 0 {
            assert(s@[f] == c);
            assert(false);
        }
    }
    None
}

/// Dispatch a single record line against a service: split on the first `=`,
/// apply `READY` or `STATUS`, ignore unknown keys. The `name` is carried for
/// the caller's diagnostics and does not influence the result.
pub fn handle_notification_message(msg: &str, srvc: &mut Service, name: &str)
    ensures
        ({
            let sm = apply_line(msg@, old(srvc).status, old(srvc).status_msgs.deep_view());
            final(srvc).status == sm.0 && final(srvc).status_msgs.deep_view() == sm.1
        }),
        final(srvc).notifications_buffer@ == old(srvc).notifications_buffer@,
        parse_frame(*old(srvc), *final(srvc)),
        old(srvc).wf() ==> final(srvc).wf(),
{
    let eq = find_char_in(msg, '=');
    let key: &str = match eq {
        Some(i) => msg.substring_char(0, i),
        None => msg,
    };
    proof {
        assert(key@ == line_key(msg@));
    }
    if str_equal(key, "READY") {
        if srvc.status == ServiceStatus::Starting {
            srvc.status = ServiceStatus::Running;
        }
    } else if str_equal(key, "STATUS") {
        let value: String = match eq {
            Some(i) => {
                proof {
                    lemma_find_char_spec(msg@, '=');
                }
                let n = msg.unicode_len();
                msg.substring_char(i + 1, n).to_owned()
            },
            None => String::new(),
        };
        proof {
            assert(value@ == line_value(msg@));
        }
        srvc.status_msgs.push(value);
        proof {
            assert(srvc.status_msgs.deep_view() =~= old(
                srvc,
            ).status_msgs.deep_view().push(value@));
        }
    }
}

/// Consume every complete line from the service's notification buffer,
/// dispatching each in arrival order; a partial final line is retained
/// verbatim for the next arrival.
pub fn handle_notifications_from_buffer(srvc: &mut Service, name: &str)
    ensures
        ({
            let d = drain_model(
                old(srvc).notifications_buffer@,
                old(srvc).status,
                old(srvc).status_msgs.deep_view(),
            );
            final(srvc).notifications_buffer@ == d.0 && final(srvc).status == d.1
                && final(srvc).status_msgs.deep_view() == d.2
        }),
        parse_frame(*old(srvc), *final(srvc)),
        old(srvc).wf() ==> final(srvc).wf(),
{
    loop
        invariant
            drain_model(
                srvc.notifications_buffer@,
                srvc.status,
                srvc.status_msgs.deep_view(),
            ) == drain_model(
                old(srvc).notifications_buffer@,
                old(srvc).status,
                old(srvc).status_msgs.deep_view(),
            ),
            parse_frame(*old(srvc), *srvc),
            old(srvc).wf() ==> srvc.wf(),
        decreases srvc.notifications_buffer@.len(),
    {
        let nl = find_char_in(srvc.notifications_buffer.as_str(), '\n');
        match nl {
            None => {
                return ;
            },
            Some(i) => {
                let ghost pre = *srvc;
                let len = srvc.notifications_buffer.as_str().unicode_len();
                let line: String = srvc.notifications_buffer.as_str().substring_char(
                    0,
                    i,
                ).to_owned();
                let rest: String = srvc.notifications_buffer.as_str().substring_char(
                    i + 1,
                    len,
                ).to_owned();
                srvc.notifications_buffer = rest;
                handle_notification_message(line.as_str(), srvc, name);
                proof {
                    let sm = apply_line(
                        line@,
                        pre.status,
                        pre.status_msgs.deep_view(),
                    );
                    assert(drain_model(
                        pre.notifications_buffer@,
                        pre.status,
                        pre.status_msgs.deep_view(),
                    ) == drain_model(rest@, sm.0, sm.1));
                }
            },
        }
    }
}

/// Draining a buffer that holds no newline changes nothing: the buffer, the
/// status and the status messages are all kept as they are.
pub proof fn lemma_drain_no_newline(buf: Seq<char>, status: ServiceStatus, msgs: Seq<Seq<char>>)
    requires
        !buf.contains('\n'),
    ensures
        drain_model(buf, status, msgs) == (buf, status, msgs),
{
    lemma_find_char_spec(buf, '\n');
    let f = find_char(buf, '\n');
    if f >= 0 {
        assert(buf.contains('\n'));
    }
}

/// Draining an empty buffer changes nothing.
pub proof fn lemma_drain_empty(status: ServiceStatus, msgs: Seq<Seq<char>>)
    ensures
        drain_model(Seq::<char>::empty(), status, msgs) == (Seq::<char>::empty(), status, msgs),
{
}

/// Draining is idempotent: a second drain of the retained buffer, from the
/// resulting status and messages, changes nothing.
pub proof fn lemma_drain_idempotent(buf: Seq<char>, status: ServiceStatus, msgs: Seq<Seq<char>>)
    ensures
        ({
            let d = drain_model(buf, status, msgs);
            drain_model(d.0, d.1, d.2) == d
        }),
    decreases buf.len(),
{
    lemma_find_char_spec(buf, '\n');
    let i = find_char(buf, '\n');
    if 0 <= i < buf.len() {
        let line = buf.subrange(0, i);
        let rest = buf.subrange(i + 1, buf.len() as int);
        let sm = apply_line(line, status, msgs);
        lemma_drain_idempotent(rest, sm.0, sm.1);
    }
}

/// The notify protocol never revives a failed service: `READY` moves only
/// a starting one, so draining any buffer from `Failed` ends in `Failed` —
/// in particular a dependent that failed with its `requires` predecessor
/// can never reach `Running` through stray notifications.
pub proof fn lemma_drain_keeps_failed(buf: Seq<char>, msgs: Seq<Seq<char>>)
    ensures
        drain_model(buf, ServiceStatus::Failed, msgs).1 == ServiceStatus::Failed,
    decreases buf.len(),
{
    lemma_find_char_spec(buf, '\n');
    let i = find_char(buf, '\n');
    if 0 <= i < buf.len() {
        let line = buf.subrange(0, i);
        let rest = buf.subrange(i + 1, buf.len() as int);
        let sm = apply_line(line, ServiceStatus::Failed, msgs);
        assert(sm.0 == ServiceStatus::Failed);
        lemma_drain_keeps_failed(rest, sm.1);
    }
}

/// A status update a service may report over its notify socket.
pub enum Notification {
    /// `READY=1`: the service finished starting.
    Ready,
    /// `STATUS=<text>`: a free-form status string.
    Status(String),
}

/// The wire form of a notification: its record line followed by the record
/// separator.
pub open spec fn spec_serialize(n: Notification) -> Seq<char> {
    match n {
        Notification::Ready => "READY=1\n"@,
        Notification::Status(v) => "STATUS="@ + v@ + "\n"@,
    }
}

/// Render a notification in its wire form.
pub fn serialize_notification(n: &Notification) -> (r: String)
    ensures
        r@ == spec_serialize(*n),
{
    match n {
        Notification::Ready => String::from_str("READY=1\n"),
        Notification::Status(v) => {
            let mut s = String::from_str("STATUS=");
            s.append(v.as_str());
            s.append("\n");
            s
        },
    }
}

/// Splitting the rendered `READY` record recovers its key, and dispatching
/// it moves a starting service to `Running`.
pub proof fn lemma_ready_record_round_trip(status: ServiceStatus, msgs: Seq<Seq<char>>)
    ensures
        line_key("READY=1"@) == "READY"@,
        line_value("READY=1"@) == seq!['1'],
        apply_line("READY=1"@, status, msgs) == (
            (
                if status == ServiceStatus::Starting {
                    ServiceStatus::Running
                } else {
                    status
                }
            ),
            msgs,
        ),
{
    reveal_strlit("READY=1");
    reveal_strlit("READY");
    let line = "READY=1"@;
    lemma_find_char_spec(line, '=');
    let f = find_char(line, '=');
    assert(line[5] == '=');
    if f == -1 {
        assert(line[5] != '=');
    }
    if f < 5 {
        assert(line[f] == '=');
        assert(false);
    }
    if f > 5 {
        assert(line[5] != '=');
        assert(false);
    }
    assert(line.subrange(0, 5) =~= "READY"@);
    assert(line.subrange(6, 7) =~= seq!['1']);
}

/// Splitting the rendered `STATUS` record recovers its key and its value
/// exactly, whatever the value holds (a value may itself contain `=`).
pub proof fn lemma_status_record_round_trip(v: Seq<char>, status: ServiceStatus, msgs: Seq<Seq<char>>)
    ensures
        line_key("STATUS="@ + v) == "STATUS"@,
        line_value("STATUS="@ + v) == v,
        apply_line("STATUS="@ + v, status, msgs) == (status, msgs.push(v)),
{
    reveal_strlit("STATUS=");
    reveal_strlit("STATUS");
    reveal_strlit("READY");
    let line = "STATUS="@ + v;
    assert(forall|j: int| 0 <= j < 7 ==> line[j] == "STATUS="@[j]);
    lemma_find_char_spec(line, '=');
    let f = find_char(line, '=');
    assert(line[6] == '=');
    if f == -1 {
        assert(line[6] != '=');
    }
    if f < 6 {
        assert(line[f] == '=');
        assert(false);
    }
    if f > 6 {
        assert(line[6] != '=');
        assert(false);
    }
    assert(line.subrange(0, 6) =~= "STATUS"@);
    assert(line.subrange(7, line.len() as int) =~= v);
    assert(line_key(line) != "READY"@) by {
        assert(line_key(line).len() == 6);
        assert("READY"@.len() == 5);
    }
}

/// Round trip of the notification protocol: parsing a rendered notification
/// consumes it whole and applies exactly the recorded effect — `READY` moves
/// a starting service to `Running`, `STATUS=v` appends `v`. A `STATUS` value
/// may not contain the record separator itself.
pub proof fn lemma_notification_round_trip(
    n: Notification,
    status: ServiceStatus,
    msgs: Seq<Seq<char>>,
)
    requires
        n matches Notification::Status(v) ==> !v@.contains('\n'),
    ensures
        drain_model(spec_serialize(n), status, msgs) == match n {
            Notification::Ready => (
                Seq::<char>::empty(),
                (
                    if status == ServiceStatus::Starting {
                        ServiceStatus::Running
                    } else {
                        status
                    }
                ),
                msgs,
            ),
            Notification::Status(v) => (Seq::<char>::empty(), status, msgs.push(v@)),
        },
{
    match n {
        Notification::Ready => {
            reveal_strlit("READY=1\n");
            reveal_strlit("READY=1");
            let buf = "READY=1\n"@;
            lemma_find_char_spec(buf, '\n');
            let f = find_char(buf, '\n');
            assert(buf[7] == '\n');
            if f == -1 {
                assert(buf[7] != '\n');
            }
            if f < 7 {
                assert(buf[f] == '\n');
                assert(false);
            }
            if f > 7 {
                assert(buf[7] != '\n');
                assert(false);
            }
            assert(buf.subrange(0, 7) =~= "READY=1"@);
            assert(buf.subrange(8, 8) =~= Seq::<char>::empty());
            lemma_ready_record_round_trip(status, msgs);
            lemma_drain_empty(apply_line("READY=1"@, status, msgs).0, msgs);
        },
        Notification::Status(val) => {
            reveal_strlit("STATUS=");
            reveal_strlit("\n");
            let v = val@;
            let buf = "STATUS="@ + v + "\n"@;
            let k: int = 7 + v.len() as int;
            assert(buf.len() == k + 1);
            assert(forall|j: int| 0 <= j < 7 ==> buf[j] == "STATUS="@[j]);
            assert(forall|j: int| 7 <= j < k ==> buf[j] == v[j - 7]);
            assert(buf[k] == "\n"@[0]);
            lemma_find_char_spec(buf, '\n');
            let f = find_char(buf, '\n');
            assert(buf[k] == '\n');
            if f == -1 {
                assert(buf[k] != '\n');
            }
            if f < k {
                assert(buf[f] == '\n');
                if f >= 7 {
                    assert(v[f - 7] == '\n');
                    assert(v.contains('\n'));
                }
                assert(false);
            }
            if f > k {
                assert(buf[k] != '\n');
                assert(false);
            }
            assert(buf.subrange(0, k) =~= "STATUS="@ + v);
            assert(buf.subrange(k + 1, k + 1) =~= Seq::<char>::empty());
            lemma_status_record_round_trip(v, status, msgs);
            lemma_drain_empty(status, msgs.push(v));
        },
    }
}

} // verus!

