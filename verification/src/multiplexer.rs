//! The child I/O multiplexer's computational parts. Three loops in the
//! surrounding binary each block in `select` over the descriptors of one
//! kind (notify sockets, stdout pipes, stderr pipes) plus a wake-up
//! descriptor; this module computes the descriptor snapshots those loops
//! watch, drains and rings the wake-up descriptor, applies received
//! notification bytes to a service, and renders child output with the
//! per-service prefix.

use vstd::prelude::*;
use vstd::string::StringSliceAdditionalSpecFns;
use crate::notification_handler;
use crate::notification_handler::{drain_model, parse_frame};
use crate::units::{InternalId, Unit, UnitTable};

verus! {

/// Which of the three multiplexer loops a descriptor belongs to.
#[derive(PartialEq, Eq, Structural, Clone, Copy, Debug)]
pub enum StreamKind {
    Notify,
    Stdout,
    Stderr,
}

/// The descriptor a unit contributes to a loop's readiness set, if any.
pub open spec fn fd_of(u: Unit, kind: StreamKind) -> Option<i32> {
    if u.is_service() {
        match kind {
            StreamKind::Notify => u.service().notifications,
            StreamKind::Stdout => u.service().stdout_dup,
            StreamKind::Stderr => u.service().stderr_dup,
        }
    } else {
        None
    }
}

/// The descriptor-to-unit snapshot of one loop, in table order.
pub open spec fn snapshot_model(s: Seq<Unit>, kind: StreamKind) -> Seq<(i32, InternalId)>
    decreases s.len(),
{
    if s.len() == 0 {
        Seq::empty()
    } else {
        let rest = snapshot_model(s.drop_last(), kind);
        match fd_of(s.last(), kind) {
            Some(fd) => rest.push((fd, s.last().id)),
            None => rest,
        }
    }
}

/// Build the `fd -> unit id` snapshot a multiplexer loop watches: one pair
/// for every service that has a descriptor of this kind, in table order.
/// A loop rebuilds it after every wake-up, so descriptors registered since
/// the last pass are observed.
pub fn collect_stream_fds(t: &UnitTable, kind: StreamKind) -> (r: Vec<(i32, InternalId)>)
    ensures
        r@ == snapshot_model(t.units@, kind),
{
    let n = t.units.len();
    let mut r: Vec<(i32, InternalId)> = Vec::new();
    let mut i: usize = 0;
    while i < n
        invariant
            n == t.units@.len(),
            i <= n,
            r@ == snapshot_model(t.units@.subrange(0, i as int), kind),
        decreases n - i,
    {
        let u = &t.units[i];
        let fd: Option<i32> = match &u.specialized {
            crate::units::UnitSpecialized::Service(s) => {
                match kind {
                    StreamKind::Notify => s.notifications,
                    StreamKind::Stdout => s.stdout_dup,
                    StreamKind::Stderr => s.stderr_dup,
                }
            },
            _ => None,
        };
        proof {
            assert(fd == fd_of(t.units@[i as int], kind));
        }
        match fd {
            Some(f) => {
                r.push((f, u.id));
            },
            None => {},
        }
        proof {
            let pre = t.units@.subrange(0, i as int);
            let cur = t.units@.subrange(0, i + 1);
            assert(cur.drop_last() =~= pre);
            assert(cur.last() == t.units@[i as int]);
        }
        i += 1;
    }
    proof {
        assert(t.units@.subrange(0, n as int) =~= t.units@);
    }
    r
}

/// Relies on nix::unistd::write (write(2)): on success at most `buf.len()`
/// bytes were written; the descriptor's state is the operating system's.
#[verifier::external_body]
fn fd_write(fd: i32, buf: &[u8]) -> (r: Option<usize>)
    ensures
        r matches Some(n) ==> n <= buf@.len(),
{
    nix::unistd::write(fd, buf).ok()
}

/// Relies on nix::unistd::read (read(2)): reads up to eight bytes into a
/// local buffer and hands back their machine-order value; what arrives is
/// the operating system's to decide.
#[verifier::external_body]
fn fd_read8(fd: i32) -> (r: Option<u64>)
{
    let mut buf = [0u8; 8];
    match nix::unistd::read(fd, &mut buf) {
        Ok(_) => Some(u64::from_ne_bytes(buf)),
        Err(_) => None,
    }
}

/// Ring a wake-up descriptor: write a non-zero eight-byte value so that
/// every loop blocked in `select` over it returns and rebuilds its
/// snapshot. Best effort — the write's outcome is the operating system's.
pub fn notify_event_fd(eventfd: i32) {
    let ones: Vec<u8> = vec![1u8, 1u8, 1u8, 1u8, 1u8, 1u8, 1u8, 1u8];
    let _ = fd_write(eventfd, ones.as_slice());
}

/// Drain a wake-up descriptor after it fired: read the eight-byte counter
/// off (leaving it 0) and write eight zero bytes, which adds nothing.
pub fn reset_event_fd(eventfd: i32) {
    let _ = fd_read8(eventfd);
    let zeros: Vec<u8> = vec![0u8, 0u8, 0u8, 0u8, 0u8, 0u8, 0u8, 0u8];
    let _ = fd_write(eventfd, zeros.as_slice());
}

/// Ring every loop's wake-up descriptor.
pub fn notify_event_fds(eventfds: &Vec<i32>) {
    let n = eventfds.len();
    let mut i: usize = 0;
    while i < n
        invariant
            n == eventfds@.len(),
            i <= n,
        decreases n - i,
    {
        notify_event_fd(eventfds[i]);
        i += 1;
    }
}

/// The event counter behind a wake-up descriptor, as the supervisor relies
/// on it: notifying adds to the counter, a drain reads the whole counter
/// off — after a drain the counter reads 0 until the next notify.
pub struct EventCounter {
    pub count: u64,
}

impl EventCounter {
    pub fn new() -> (r: EventCounter)
        ensures
            r.count == 0,
    {
        EventCounter { count: 0 }
    }

    /// A wake-up: the counter becomes non-zero, so a blocked loop's next
    /// wait reports the descriptor ready.
    pub fn notify(&mut self)
        ensures
            final(self).count == (if old(self).count == u64::MAX {
                old(self).count
            } else {
                (old(self).count + 1) as u64
            }),
            final(self).count > 0,
    {
        if self.count < u64::MAX {
            self.count = self.count + 1;
        }
    }

    /// A drain: the whole counter is read off at once. After a drain the
    /// counter reads 0.
    pub fn drain(&mut self) -> (r: u64)
        ensures
            r == old(self).count,
            final(self).count == 0,
    {
        let r = self.count;
        self.count = 0;
        r
    }
}

/// Deliver a chunk received from a service's notify socket: append it to
/// the service's buffer and consume every complete line, as the
/// notification protocol prescribes.
pub fn feed_notification_chunk(srvc: &mut crate::units::Service, chunk: &str, name: &str)
    ensures
        ({
            let d = drain_model(
                old(srvc).notifications_buffer@ + chunk@,
                old(srvc).status,
                old(srvc).status_msgs.deep_view(),
            );
            final(srvc).notifications_buffer@ == d.0 && final(srvc).status == d.1
                && final(srvc).status_msgs.deep_view() == d.2
        }),
        parse_frame(*old(srvc), *final(srvc)),
        old(srvc).wf() ==> final(srvc).wf(),
{
    srvc.notifications_buffer.append(chunk);
    notification_handler::handle_notifications_from_buffer(srvc, name);
}

/// Index of the first occurrence of `b` in `s`, or -1 when `b` is absent.
pub open spec fn find_byte(s: Seq<u8>, b: u8) -> int
    decreases s.len(),
{
    if s.len() == 0 {
        -1
    } else if s[0] == b {
        0
    } else {
        let r = find_byte(s.drop_first(), b);
        if r < 0 {
            -1
        } else {
            r + 1
        }
    }
}

/// `find_byte` returns -1 exactly when `b` is absent, and otherwise the
/// least index holding `b`.
pub proof fn lemma_find_byte_spec(s: Seq<u8>, b: u8)
    ensures
        find_byte(s, b) == -1 || 0 <= find_byte(s, b) < s.len(),
        find_byte(s, b) >= 0 ==> s[find_byte(s, b)] == b,
        forall|j: int| 0 <= j < find_byte(s, b) ==> s[j] != b,
        find_byte(s, b) == -1 ==> forall|j: int| 0 <= j < s.len() ==> s[j] != b,
    decreases s.len(),
{
    if s.len() == 0 {
    } else if s[0] == b {
    } else {
        let s1 = s.drop_first();
        lemma_find_byte_spec(s1, b);
        let r = find_byte(s1, b);
        assert(forall|j: int| 0 <= j < s1.len() ==> s1[j] == s[j + 1]);
        if r < 0 {
            assert forall|j: int| 0 <= j < s.len() implies s[j] != b by {
                if j > 0 {
                    assert(s1[j - 1] != b);
                }
            }
        } else {
            assert(find_byte(s, b) == r + 1);
            assert(s1[r] == b);
            assert forall|j: int| 0 <= j < r + 1 implies s[j] != b by {
                if j > 0 {
                    assert(s1[j - 1] != b);
                }
            }
        }
    }
}

/// One forwarded output line: empty pieces are dropped, anything else is
/// the prefix, the piece, and a newline.
pub open spec fn render_line(prefix: Seq<u8>, line: Seq<u8>) -> Seq<u8> {
    if line.len() == 0 {
        Seq::empty()
    } else {
        prefix + line + seq![10u8]
    }
}

/// A whole read, split at newlines and forwarded piece by piece. A trailing
/// piece without its newline is flushed all the same: a line longer than
/// the read buffer arrives as prefixed parts.
pub open spec fn render_lines(prefix: Seq<u8>, data: Seq<u8>) -> Seq<u8>
    decreases data.len(),
{
    let i = find_byte(data, 10u8);
    if 0 <= i < data.len() {
        render_line(prefix, data.subrange(0, i)) + render_lines(
            prefix,
            data.subrange(i + 1, data.len() as int),
        )
    } else {
        render_line(prefix, data)
    }
}

/// The per-service prefix of forwarded output, over the name's UTF-8
/// bytes: `[<name>] ` for stdout, `[<name>][STDERR] ` for stderr.
pub open spec fn prefix_model(name: Seq<u8>, stderr: bool) -> Seq<u8> {
    seq![91u8] + name + seq![93u8] + (if stderr {
        seq![91u8, 83u8, 84u8, 68u8, 69u8, 82u8, 82u8, 93u8]
    } else {
        Seq::<u8>::empty()
    }) + seq![32u8]
}

/// Append `src[from..to]` to `dst`.
fn push_range(dst: &mut Vec<u8>, src: &Vec<u8>, from: usize, to: usize)
    requires
        from <= to <= src@.len(),
    ensures
        final(dst)@ == old(dst)@ + src@.subrange(from as int, to as int),
{
    let mut k = from;
    while k < to
        invariant
            from <= k <= to <= src@.len(),
            dst@ == old(dst)@ + src@.subrange(from as int, k as int),
        decreases to - k,
    {
        dst.push(src[k]);
        proof {
            assert(dst@ =~= old(dst)@ + src@.subrange(from as int, k + 1));
        }
        k += 1;
    }
}

/// Build the per-service output prefix from the name's UTF-8 bytes; any
/// name serves.
pub fn output_prefix(name: &str, stderr: bool) -> (r: Vec<u8>)
    ensures
        r@ == prefix_model(name.spec_bytes(), stderr),
{
    let mut r: Vec<u8> = Vec::new();
    r.push(91u8);
    let nb = name.as_bytes_vec();
    let nlen = nb.len();
    push_range(&mut r, &nb, 0, nlen);
    proof {
        assert(nb@.subrange(0, nlen as int) =~= nb@);
    }
    r.push(93u8);
    if stderr {
        r.push(91u8);
        r.push(83u8);
        r.push(84u8);
        r.push(68u8);
        r.push(69u8);
        r.push(82u8);
        r.push(82u8);
        r.push(93u8);
    }
    r.push(32u8);
    proof {
        assert(r@ =~= prefix_model(name.spec_bytes(), stderr));
    }
    r
}

/// Render one read from a child's stdout or stderr pipe: split the bytes at
/// newlines, drop empty pieces, and put the prefix before each piece and a
/// newline after it — ready for the supervisor's own stdout or stderr.
pub fn format_output(prefix: &Vec<u8>, data: &Vec<u8>) -> (r: Vec<u8>)
    ensures
        r@ == render_lines(prefix@, data@),
{
    let n = data.len();
    let mut out: Vec<u8> = Vec::new();
    let mut pos: usize = 0;
    proof {
        assert(data@.subrange(0, n as int) =~= data@);
        assert(out@ + render_lines(prefix@, data@) =~= render_lines(prefix@, data@));
    }
    loop
        invariant
            pos <= n,
            n == data@.len(),
            render_lines(prefix@, data@) == out@ + render_lines(
                prefix@,
                data@.subrange(pos as int, n as int),
            ),
        decreases n - pos,
    {
        let ghost sub = data@.subrange(pos as int, n as int);
        let mut k: usize = pos;
        while k < n && data[k] != 10u8
            invariant
                pos <= k <= n,
                n == data@.len(),
                forall|j: int| pos <= j < k ==> data@[j] != 10u8,
            decreases n - k,
        {
            k += 1;
        }
        proof {
            assert(forall|j: int| 0 <= j < k - pos ==> sub[j] == data@[j + pos]);
            lemma_find_byte_spec(sub, 10u8);
            let f = find_byte(sub, 10u8);
            if k < n {
                assert(sub[k - pos] == 10u8);
                if f == -1 {
                    assert(sub[k - pos] != 10u8);
                }
                if f < k - pos {
                    assert(sub[f] == 10u8);
                    assert(data@[f + pos] == 10u8);
                    assert(false);
                }
                if f > k - pos {
                    assert(sub[k - pos] != 10u8);
                    assert(false);
                }
            } else {
                if f >= 0 {
                    assert(sub[f] == 10u8);
                    assert(data@[f + pos] == 10u8);
                    assert(false);
                }
            }
        }
        let ghost out0 = out@;
        if k > pos {
            push_range(&mut out, prefix, 0, prefix.len());
            proof {
                assert(prefix@.subrange(0, prefix@.len() as int) =~= prefix@);
            }
            push_range(&mut out, data, pos, k);
            out.push(10u8);
            proof {
                let line = data@.subrange(pos as int, k as int);
                assert(out@ =~= out0 + (prefix@ + line + seq![10u8]));
                assert(line =~= sub.subrange(0, k - pos));
                assert(line.len() > 0);
            }
        } else {
            proof {
                assert(sub.subrange(0, 0) =~= Seq::<u8>::empty());
            }
        }
        if k < n {
            proof {
                let line = sub.subrange(0, k - pos);
                let rest = sub.subrange(k - pos + 1, sub.len() as int);
                assert(render_lines(prefix@, sub) == render_line(prefix@, line) + render_lines(
                    prefix@,
                    rest,
                ));
                assert(rest =~= data@.subrange(k + 1, n as int));
                assert(out@ == out0 + render_line(prefix@, line));
            }
            pos = k + 1;
        } else {
            proof {
                let line = sub.subrange(0, k - pos);
                assert(line =~= sub);
                assert(render_lines(prefix@, sub) == render_line(prefix@, sub));
                assert(out@ == out0 + render_line(prefix@, sub));
            }
            return out;
        }
    }
}

} // verus!
