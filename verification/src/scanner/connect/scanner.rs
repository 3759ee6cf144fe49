//! The decisions of the connect scanner: which ports answered, which gave
//! up, and what is reported for each.
//!
//! The sockets themselves are opened, connected and polled by the caller;
//! the scanner keeps each one as an opaque handle `H` next to its port and
//! the time at which its connection attempt started.
use vstd::prelude::*;

use crate::address::Ipv4Address;
use crate::scanner::connect::models::{PortStatus, ScanResult};

verus! {

/// How long a connection attempt may stay unanswered, in milliseconds,
/// before its port is reported as timed out.
pub const CONNECTION_TIMEOUT_MS: u64 = 400;

/// What a non-blocking `connect` on a fresh socket reported.
#[derive(Clone, Copy, Debug, PartialEq, Eq, Structural)]
pub enum ConnectOutcome {
    /// The connection was established at once.
    Connected,
    /// The connection is being established (`EINPROGRESS`).
    InProgress,
    /// The peer refused the connection (`ECONNREFUSED`).
    Refused,
    /// The attempt timed out at once (`ETIMEDOUT`).
    TimedOut,
}

/// A connection attempt that has not finished yet.
pub struct PendingConnection<H> {
    pub fd: H,
    pub port: u16,
    pub started_at_ms: u64,
}

/// A connect scanner of one target address.
pub struct Scanner<H> {
    ip: Ipv4Address,
    pending: Vec<PendingConnection<H>>,
}

/// The index of the first connection in `s` made to `port`, or -1.
pub open spec fn first_with_port<H>(s: Seq<PendingConnection<H>>, port: u16) -> int
    decreases s.len(),
{
    if s.len() == 0 {
        -1
    } else if s[0].port == port {
        0
    } else {
        let rest = first_with_port(s.drop_first(), port);
        if rest < 0 {
            -1
        } else {
            rest + 1
        }
    }
}

/// Takes out of `pending`, for each port of `ports` in turn, the first
/// connection still there that was made to that port (if any). Gives what
/// stays pending and, in order, the connections taken out.
pub open spec fn extract<H>(pending: Seq<PendingConnection<H>>, ports: Seq<u16>) -> (Seq<
    PendingConnection<H>,
>, Seq<PendingConnection<H>>)
    decreases ports.len(),
{
    if ports.len() == 0 {
        (pending, Seq::empty())
    } else {
        let i = first_with_port(pending, ports[0]);
        let (after, taken) = if i >= 0 {
            (pending.remove(i), seq![pending[i]])
        } else {
            (pending, Seq::empty())
        };
        let (rest, more) = extract(after, ports.drop_first());
        (rest, taken + more)
    }
}

/// Whether the attempt `c` has been unanswered for at least the timeout at
/// time `now_ms` (an attempt that started after `now_ms` has waited 0 ms).
pub open spec fn is_expired<H>(c: PendingConnection<H>, now_ms: u64) -> bool {
    now_ms >= c.started_at_ms && now_ms - c.started_at_ms >= CONNECTION_TIMEOUT_MS
}

/// The ports of the connections of `s` whose flag in `writable` is set, in order.
pub open spec fn writable_ports<H>(s: Seq<PendingConnection<H>>, writable: Seq<bool>) -> Seq<u16>
    decreases s.len(),
{
    if s.len() == 0 {
        Seq::empty()
    } else {
        let before = writable_ports(s.drop_last(), writable.drop_last());
        if writable.last() {
            before.push(s.last().port)
        } else {
            before
        }
    }
}

/// The ports of the connections of `s` that have expired at `now_ms`, in order.
pub open spec fn expired_ports<H>(s: Seq<PendingConnection<H>>, now_ms: u64) -> Seq<u16>
    decreases s.len(),
{
    if s.len() == 0 {
        Seq::empty()
    } else {
        let before = expired_ports(s.drop_last(), now_ms);
        if is_expired(s.last(), now_ms) {
            before.push(s.last().port)
        } else {
            before
        }
    }
}

/// The expired ports are the ports of the connections that have waited at
/// least the timeout, kept in order: one per such connection, none for
/// any other.
pub proof fn lemma_expired_ports_are_ports_of_expired<H>(s: Seq<PendingConnection<H>>, now_ms: u64)
    ensures
        expired_ports(s, now_ms) == s.filter(|c: PendingConnection<H>| is_expired(c, now_ms)).map_values(
            |c: PendingConnection<H>| c.port,
        ),
    decreases s.len(),
{
    reveal(Seq::filter);
    if s.len() > 0 {
        let init = s.drop_last();
        let last = s.last();
        lemma_expired_ports_are_ports_of_expired(init, now_ms);
        let f = s.filter(|c: PendingConnection<H>| is_expired(c, now_ms));
        let fi = init.filter(|c: PendingConnection<H>| is_expired(c, now_ms));
        if is_expired(last, now_ms) {
            assert(f == fi.push(last));
            assert(f.map_values(|c: PendingConnection<H>| c.port) =~= fi.map_values(
                |c: PendingConnection<H>| c.port,
            ).push(last.port));
        } else {
            assert(f == fi);
        }
    }
}

/// A connection has expired exactly when it started at or before `now_ms`
/// and at least `CONNECTION_TIMEOUT_MS` milliseconds have passed since.
pub proof fn lemma_expired_after_timeout<H>(c: PendingConnection<H>, now_ms: u64)
    ensures
        is_expired(c, now_ms) <==> c.started_at_ms + 400 <= now_ms,
{
}

/// What `first_with_port` finds: the first connection to the port, or none.
pub proof fn lemma_first_with_port<H>(s: Seq<PendingConnection<H>>, port: u16)
    ensures
        -1 <= first_with_port(s, port) < s.len(),
        first_with_port(s, port) == -1 ==> forall|j: int| 0 <= j < s.len() ==> #[trigger] s[j].port != port,
        first_with_port(s, port) >= 0 ==> s[first_with_port(s, port)].port == port,
        forall|j: int| 0 <= j < first_with_port(s, port) ==> #[trigger] s[j].port != port,
    decreases s.len(),
{
    if s.len() > 0 {
        lemma_first_with_port(s.drop_first(), port);
        if s[0].port != port {
            assert forall|j: int| 0 <= j < s.len() && first_with_port(s, port) == -1 implies #[trigger] s[j].port != port by {
                if j > 0 {
                    assert(s[j] == s.drop_first()[j - 1]);
                }
            }
            assert forall|j: int| 0 <= j < first_with_port(s, port) implies #[trigger] s[j].port != port by {
                if j > 0 {
                    assert(s[j] == s.drop_first()[j - 1]);
                }
            }
        }
    }
}

/// No connection is lost or duplicated by `extract`: what stays pending and
/// what is taken out are, together, the connections that were pending.
pub proof fn lemma_extract_conserves<H>(pending: Seq<PendingConnection<H>>, ports: Seq<u16>)
    ensures
        pending.to_multiset() =~= extract(pending, ports).0.to_multiset().add(
            extract(pending, ports).1.to_multiset(),
        ),
        extract(pending, ports).0.len() + extract(pending, ports).1.len() == pending.len(),
        extract(pending, ports).1.len() <= ports.len(),
    decreases ports.len(),
{
    broadcast use vstd::seq_lib::group_to_multiset_ensures, vstd::multiset::group_multiset_axioms;

    if ports.len() > 0 {
        let i = first_with_port(pending, ports[0]);
        lemma_first_with_port(pending, ports[0]);
        if i >= 0 {
            let p = pending[i];
            let after = pending.remove(i);
            lemma_extract_conserves(after, ports.drop_first());
            let (rest, more) = extract(after, ports.drop_first());
            assert(extract(pending, ports).1 == seq![p] + more);
            vstd::seq_lib::lemma_multiset_commutative(seq![p], more);
            assert(seq![p] == Seq::<PendingConnection<H>>::empty().push(p));
            assert(seq![p].to_multiset() =~= vstd::multiset::Multiset::empty().insert(p));
            assert(pending.contains(p));
            assert(after.to_multiset() =~= pending.to_multiset().remove(p));
            assert(pending.to_multiset() =~= after.to_multiset().insert(p));
        } else {
            lemma_extract_conserves(pending, ports.drop_first());
            assert(extract(pending, ports).1 == Seq::<PendingConnection<H>>::empty()
                + extract(pending, ports.drop_first()).1);
            assert(Seq::<PendingConnection<H>>::empty() + extract(pending, ports.drop_first()).1
                == extract(pending, ports.drop_first()).1);
        }
    }
}

/// Taking out for the ports of `a` and then for those of `b` is taking out
/// for the ports of `a + b`.
pub proof fn lemma_extract_append<H>(s: Seq<PendingConnection<H>>, a: Seq<u16>, b: Seq<u16>)
    ensures
        extract(s, a + b) == (
            extract(extract(s, a).0, b).0,
            extract(s, a).1 + extract(extract(s, a).0, b).1,
        ),
    decreases a.len(),
{
    if a.len() == 0 {
        assert(a + b == b);
        assert(Seq::<PendingConnection<H>>::empty() + extract(s, b).1 == extract(s, b).1);
    } else {
        assert((a + b)[0] == a[0]);
        assert((a + b).drop_first() == a.drop_first() + b);
        let i = first_with_port(s, a[0]);
        let (after, t1) = if i >= 0 {
            (s.remove(i), seq![s[i]])
        } else {
            (s, Seq::<PendingConnection<H>>::empty())
        };
        lemma_extract_append(after, a.drop_first(), b);
        let x = extract(after, a.drop_first());
        let y = extract(x.0, b);
        assert(t1 + (x.1 + y.1) == (t1 + x.1) + y.1);
    }
}

/// Taking out for one port is one step of `extract`.
pub proof fn lemma_extract_one<H>(s: Seq<PendingConnection<H>>, port: u16)
    ensures
        ({
            let i = first_with_port(s, port);
            &&& i >= 0 ==> extract(s, seq![port]) == (s.remove(i), seq![s[i]])
            &&& i < 0 ==> extract(s, seq![port]) == (s, Seq::<PendingConnection<H>>::empty())
        }),
{
    let i = first_with_port(s, port);
    assert(seq![port][0] == port);
    assert(seq![port].drop_first() == Seq::<u16>::empty());
    if i >= 0 {
        assert(extract(s.remove(i), Seq::<u16>::empty()) == (s.remove(i), Seq::<PendingConnection<H>>::empty()));
        assert(seq![s[i]] + Seq::<PendingConnection<H>>::empty() == seq![s[i]]);
    } else {
        assert(extract(s, Seq::<u16>::empty()) == (s, Seq::<PendingConnection<H>>::empty()));
        assert(Seq::<PendingConnection<H>>::empty() + Seq::<PendingConnection<H>>::empty()
            == Seq::<PendingConnection<H>>::empty());
    }
}

/// Runs the rounds `rounds` of a scan on the pending connections
/// `pending`: in each round the ports that answered (the first of the pair)
/// and then the ports that gave up (the second) take out their connections,
/// as `ready_results` and `timeout_results` do. Gives what stays pending
/// and, in order, every connection taken out (and so reported).
pub open spec fn run_rounds<H>(
    pending: Seq<PendingConnection<H>>,
    rounds: Seq<(Seq<u16>, Seq<u16>)>,
) -> (Seq<PendingConnection<H>>, Seq<PendingConnection<H>>)
    decreases rounds.len(),
{
    if rounds.len() == 0 {
        (pending, Seq::empty())
    } else {
        let (after_ready, ready) = extract(pending, rounds[0].0);
        let (after_timeout, timed_out) = extract(after_ready, rounds[0].1);
        let (rest, more) = run_rounds(after_timeout, rounds.drop_first());
        (rest, ready + timed_out + more)
    }
}

/// Over a whole scan, no connection that was pending is reported twice or
/// lost: what is reported and what stays pending are, together, what was
/// pending. So once nothing is pending (when the scan ends), each
/// connection was reported exactly once.
pub proof fn lemma_scan_reports_each_connection_once<H>(
    pending: Seq<PendingConnection<H>>,
    rounds: Seq<(Seq<u16>, Seq<u16>)>,
)
    ensures
        pending.to_multiset() =~= run_rounds(pending, rounds).1.to_multiset().add(
            run_rounds(pending, rounds).0.to_multiset(),
        ),
        run_rounds(pending, rounds).0.len() == 0 ==> run_rounds(pending, rounds).1.to_multiset()
            =~= pending.to_multiset(),
    decreases rounds.len(),
{
    broadcast use vstd::seq_lib::group_to_multiset_ensures, vstd::multiset::group_multiset_axioms;

    if rounds.len() > 0 {
        let (after_ready, ready) = extract(pending, rounds[0].0);
        let (after_timeout, timed_out) = extract(after_ready, rounds[0].1);
        lemma_extract_conserves(pending, rounds[0].0);
        lemma_extract_conserves(after_ready, rounds[0].1);
        lemma_scan_reports_each_connection_once(after_timeout, rounds.drop_first());
        let (rest, more) = run_rounds(after_timeout, rounds.drop_first());
        vstd::seq_lib::lemma_multiset_commutative(ready + timed_out, more);
        vstd::seq_lib::lemma_multiset_commutative(ready, timed_out);
    }
    if run_rounds(pending, rounds).0.len() == 0 {
        assert(run_rounds(pending, rounds).0 =~= Seq::<PendingConnection<H>>::empty());
    }
}

/// What a port whose socket holds the pending error code `code`
/// (`SO_ERROR`) is reported as: open when it is 0, closed otherwise.
pub open spec fn status_of_socket_error(code: i32) -> PortStatus {
    if code == 0 {
        PortStatus::Open
    } else {
        PortStatus::Closed
    }
}

/// A socket with no pending error (code 0) is reported open, one with any
/// other code closed; no code reports a timeout.
pub proof fn lemma_socket_error_status(code: i32)
    ensures
        status_of_socket_error(code) == PortStatus::Open <==> code == 0,
        status_of_socket_error(code) == PortStatus::Closed <==> code != 0,
{
}

/// Whether `status` is what a port is reported as when `socket_error`
/// could have given, for the socket `fd`, the error code 0 (open) or
/// another error code (closed).
pub open spec fn reports_socket_error<H, E, F: Fn(&H) -> Result<i32, E>>(
    socket_error: F,
    fd: H,
    status: PortStatus,
) -> bool {
    ||| status == PortStatus::Open && call_ensures(socket_error, (&fd,), Ok(0i32))
    ||| status == PortStatus::Closed && exists|e: i32|
        e != 0 && #[trigger] call_ensures(socket_error, (&fd,), Ok(e))
}

impl<H> Scanner<H> {
    /// The address this scanner connects to.
    pub closed spec fn spec_ip(&self) -> Ipv4Address {
        self.ip
    }

    /// The connection attempts that have not finished, oldest first.
    pub closed spec fn pending_seq(&self) -> Seq<PendingConnection<H>> {
        self.pending@
    }

    /// A scanner of `ip` with no connection attempt under way.
    pub fn new(ip: Ipv4Address) -> (s: Self)
        ensures
            s.spec_ip() == ip,
            s.pending_seq() == Seq::<PendingConnection<H>>::empty(),
    {
        Self { ip, pending: Vec::new() }
    }

    /// The address this scanner connects to.
    pub fn ip(&self) -> (ip: Ipv4Address)
        ensures
            ip == self.spec_ip(),
    {
        self.ip
    }

    /// The connection attempts that have not finished, oldest first.
    pub fn pending(&self) -> (p: &Vec<PendingConnection<H>>)
        ensures
            p@ == self.pending_seq(),
    {
        &self.pending
    }

    /// Records the outcome of starting a connection to `port` on the socket
    /// `fd` at time `now_ms`: a connection under way is kept pending (with
    /// its socket) and reported later; any other outcome is reported now.
    pub fn start_connection(
        &mut self,
        port: u16,
        fd: H,
        outcome: ConnectOutcome,
        now_ms: u64,
    ) -> (res: Option<ScanResult>)
        ensures
            final(self).spec_ip() == old(self).spec_ip(),
            outcome == ConnectOutcome::InProgress ==> res is None && final(self).pending_seq()
                == old(self).pending_seq().push(
                PendingConnection { fd, port, started_at_ms: now_ms },
            ),
            outcome == ConnectOutcome::Connected ==> res == Some(
                ScanResult { port, status: PortStatus::Open },
            ),
            outcome == ConnectOutcome::Refused ==> res == Some(
                ScanResult { port, status: PortStatus::Closed },
            ),
            outcome == ConnectOutcome::TimedOut ==> res == Some(
                ScanResult { port, status: PortStatus::Timeout },
            ),
            outcome != ConnectOutcome::InProgress ==> final(self).pending_seq() == old(
                self,
            ).pending_seq(),
    {
        match outcome {
            ConnectOutcome::Connected => Some(ScanResult { port, status: PortStatus::Open }),
            ConnectOutcome::InProgress => {
                self.pending.push(PendingConnection { fd, port, started_at_ms: now_ms });
                None
            },
            ConnectOutcome::Refused => Some(ScanResult { port, status: PortStatus::Closed }),
            ConnectOutcome::TimedOut => Some(ScanResult { port, status: PortStatus::Timeout }),
        }
    }

    /// Given which pending sockets a poll reported writable (one flag per
    /// pending connection, in order) and the time `now_ms`, gives the ports
    /// whose connection has an answer and the ports whose attempt has been
    /// waiting for at least `CONNECTION_TIMEOUT_MS`, both in pending order.
    pub fn classify_pending(&self, writable: &Vec<bool>, now_ms: u64) -> (res: (Vec<u16>, Vec<u16>))
        requires
            writable.len() == self.pending_seq().len(),
        ensures
            res.0@ == writable_ports(self.pending_seq(), writable@),
            res.1@ == expired_ports(self.pending_seq(), now_ms),
    {
        let n = self.pending.len();
        let mut ready_ports: Vec<u16> = Vec::new();
        let mut i: usize = 0;
        while i < n
            invariant
                n == self.pending@.len(),
                n == writable@.len(),
                i <= n,
                ready_ports@ == writable_ports(self.pending@.take(i as int), writable@.take(i as int)),
            decreases n - i,
        {
            proof {
                assert(self.pending@.take(i + 1).drop_last() == self.pending@.take(i as int));
                assert(writable@.take(i + 1).drop_last() == writable@.take(i as int));
            }
            if writable[i] {
                ready_ports.push(self.pending[i].port);
            }
            i += 1;
        }
        proof {
            assert(self.pending@.take(n as int) == self.pending@);
            assert(writable@.take(n as int) == writable@);
        }
        let mut timeout_ports: Vec<u16> = Vec::new();
        let mut k: usize = 0;
        while k < n
            invariant
                n == self.pending@.len(),
                k <= n,
                timeout_ports@ == expired_ports(self.pending@.take(k as int), now_ms),
            decreases n - k,
        {
            proof {
                assert(self.pending@.take(k + 1).drop_last() == self.pending@.take(k as int));
            }
            let elapsed = now_ms.saturating_sub(self.pending[k].started_at_ms);
            if elapsed >= CONNECTION_TIMEOUT_MS {
                timeout_ports.push(self.pending[k].port);
            }
            k += 1;
        }
        proof {
            assert(self.pending@.take(n as int) == self.pending@);
        }
        (ready_ports, timeout_ports)
    }

    /// The position of the first pending connection made to `port`, if any.
    fn position_of(&self, port: u16) -> (res: Option<usize>)
        ensures
            ({
                let k = first_with_port(self.pending_seq(), port);
                &&& k < 0 <==> res is None
                &&& res matches Some(i) ==> i == k && k < self.pending_seq().len()
            }),
    {
        proof {
            lemma_first_with_port(self.pending@, port);
        }
        let n = self.pending.len();
        let mut i: usize = 0;
        while i < n
            invariant
                n == self.pending@.len(),
                i <= n,
                forall|j: int| 0 <= j < i ==> #[trigger] self.pending@[j].port != port,
            decreases n - i,
        {
            if self.pending[i].port == port {
                proof {
                    lemma_first_with_port(self.pending@, port);
                    let f = first_with_port(self.pending@, port);
                    assert(f >= 0) by {
                        if f == -1 {
                            assert(self.pending@[i as int].port != port);
                        }
                    }
                    if f < i {
                        assert(self.pending@[f].port != port);
                    }
                    assert(!(i < f)) by {
                        if i < f {
                            assert(self.pending@[i as int].port != port);
                        }
                    }
                }
                return Some(i);
            }
            i += 1;
        }
        proof {
            lemma_first_with_port(self.pending@, port);
        }
        None
    }

    /// Takes out the first pending connection made to `port`, if any.
    fn take_port(&mut self, port: u16) -> (res: Option<PendingConnection<H>>)
        ensures
            final(self).spec_ip() == old(self).spec_ip(),
            ({
                let i = first_with_port(old(self).pending_seq(), port);
                &&& i >= 0 ==> res == Some(old(self).pending_seq()[i]) && final(self).pending_seq()
                    == old(self).pending_seq().remove(i)
                &&& i < 0 ==> res is None && final(self).pending_seq() == old(self).pending_seq()
            }),
    {
        match self.position_of(port) {
            Some(i) => Some(self.pending.remove(i)),
            None => None,
        }
    }

    /// The socket of the first pending connection made to `port`, if any.
    pub fn socket_for(&self, port: u16) -> (fd: Option<&H>)
        ensures
            ({
                let k = first_with_port(self.pending_seq(), port);
                &&& k < 0 <==> fd is None
                &&& fd matches Some(f) ==> *f == self.pending_seq()[k].fd
            }),
    {
        match self.position_of(port) {
            Some(i) => {
                Some(&self.pending[i].fd)
            },
            None => None,
        }
    }

    /// Takes in the pending error code `so_error` (`SO_ERROR`) read once from
    /// the socket of the first pending connection made to `port`: drops that
    /// connection and reports the port, open when the code is 0 and closed
    /// otherwise. With no pending connection to `port`, nothing changes and
    /// nothing is reported.
    pub fn record_ready(&mut self, port: u16, so_error: i32) -> (r: Option<ScanResult>)
        ensures
            final(self).spec_ip() == old(self).spec_ip(),
            ({
                let k = first_with_port(old(self).pending_seq(), port);
                &&& k < 0 ==> r is None && final(self).pending_seq() == old(self).pending_seq()
                &&& k >= 0 ==> r == Some(
                    ScanResult { port, status: status_of_socket_error(so_error) },
                ) && final(self).pending_seq() == old(self).pending_seq().remove(k)
            }),
    {
        proof {
            lemma_first_with_port(self.pending@, port);
        }
        match self.take_port(port) {
            Some(conn) => {
                let status = if so_error == 0 {
                    PortStatus::Open
                } else {
                    PortStatus::Closed
                };
                Some(ScanResult { port: conn.port, status })
            },
            None => None,
        }
    }

    /// Reports as timed out each port of `timeout_ports` that still has a
    /// pending connection, and drops that connection.
    pub fn timeout_results(&mut self, timeout_ports: Vec<u16>) -> (results: Vec<ScanResult>)
        ensures
            final(self).spec_ip() == old(self).spec_ip(),
            ({
                let (rest, taken) = extract(old(self).pending_seq(), timeout_ports@);
                &&& final(self).pending_seq() == rest
                &&& results@.len() == taken.len()
                &&& results@.len() + final(self).pending_seq().len() == old(self).pending_seq().len()
                &&& forall|k: int|
                    0 <= k < taken.len() ==> #[trigger] results@[k] == (ScanResult {
                        port: taken[k].port,
                        status: PortStatus::Timeout,
                    })
            }),
    {
        let mut results: Vec<ScanResult> = Vec::new();
        let ghost start = self.pending@;
        let mut i: usize = 0;
        proof {
            assert(timeout_ports@.take(0) == Seq::<u16>::empty());
        }
        while i < timeout_ports.len()
            invariant
                i <= timeout_ports@.len(),
                self.ip == old(self).ip,
                start == old(self).pending@,
                self.pending@ == extract(start, timeout_ports@.take(i as int)).0,
                results@.len() == extract(start, timeout_ports@.take(i as int)).1.len(),
                forall|k: int|
                    0 <= k < results@.len() ==> #[trigger] results@[k] == (ScanResult {
                        port: extract(start, timeout_ports@.take(i as int)).1[k].port,
                        status: PortStatus::Timeout,
                    }),
            decreases timeout_ports.len() - i,
        {
            let port = timeout_ports[i];
            let ghost before = self.pending@;
            proof {
                assert(timeout_ports@.take(i + 1) == timeout_ports@.take(i as int) + seq![port]);
                lemma_extract_append(start, timeout_ports@.take(i as int), seq![port]);
                lemma_extract_one(before, port);
            }
            let taken = self.take_port(port);
            match taken {
                Some(conn) => {
                    results.push(ScanResult { port: conn.port, status: PortStatus::Timeout });
                },
                None => {},
            }
            i += 1;
        }
        proof {
            assert(timeout_ports@.take(i as int) == timeout_ports@);
            lemma_extract_conserves(start, timeout_ports@);
        }
        results
    }
    /// For each port of `ready_ports` that still has a pending connection,
    /// drops that connection and reports the port: `socket_error` is asked
    /// once for its socket, and its answer is taken in as `record_ready`
    /// does (open on 0, closed on another error code). Stops at the first
    /// failure of `socket_error` and returns it.
    pub fn ready_results<E, F: Fn(&H) -> Result<i32, E>>(
        &mut self,
        ready_ports: Vec<u16>,
        socket_error: F,
    ) -> (res: Result<Vec<ScanResult>, E>)
        requires
            forall|h: &H| call_requires(socket_error, (h,)),
        ensures
            final(self).spec_ip() == old(self).spec_ip(),
            res matches Ok(results) ==> {
                let (rest, taken) = extract(old(self).pending_seq(), ready_ports@);
                &&& final(self).pending_seq() == rest
                &&& results@.len() == taken.len()
                &&& results@.len() + final(self).pending_seq().len() == old(self).pending_seq().len()
                &&& forall|k: int| 0 <= k < taken.len() ==> #[trigger] results@[k].port == taken[k].port
                &&& forall|k: int|
                    0 <= k < taken.len() ==> reports_socket_error(
                        socket_error,
                        taken[k].fd,
                        #[trigger] results@[k].status,
                    )
            },
            res matches Err(e) ==> exists|j: int|
                0 <= j < ready_ports@.len() && ({
                    let before = extract(old(self).pending_seq(), #[trigger] ready_ports@.take(j)).0;
                    let k = first_with_port(before, ready_ports@[j]);
                    &&& k >= 0
                    &&& call_ensures(socket_error, (&before[k].fd,), Err(e))
                    &&& final(self).pending_seq() == before.remove(k)
                }),
    {
        let mut results: Vec<ScanResult> = Vec::new();
        let ghost start = self.pending@;
        let mut i: usize = 0;
        proof {
            assert(ready_ports@.take(0) == Seq::<u16>::empty());
        }
        while i < ready_ports.len()
            invariant
                i <= ready_ports@.len(),
                self.ip == old(self).ip,
                start == old(self).pending@,
                forall|h: &H| call_requires(socket_error, (h,)),
                self.pending@ == extract(start, ready_ports@.take(i as int)).0,
                results@.len() == extract(start, ready_ports@.take(i as int)).1.len(),
                forall|k: int|
                    0 <= k < results@.len() ==> #[trigger] results@[k].port == extract(
                        start,
                        ready_ports@.take(i as int),
                    ).1[k].port,
                forall|k: int|
                    0 <= k < results@.len() ==> reports_socket_error(
                        socket_error,
                        extract(start, ready_ports@.take(i as int)).1[k].fd,
                        #[trigger] results@[k].status,
                    ),
            decreases ready_ports.len() - i,
        {
            let port = ready_ports[i];
            let ghost before = self.pending@;
            proof {
                assert(ready_ports@.take(i + 1) == ready_ports@.take(i as int) + seq![port]);
                lemma_extract_append(start, ready_ports@.take(i as int), seq![port]);
                lemma_extract_one(before, port);
            }
            let answer = match self.socket_for(port) {
                Some(fd) => Some(socket_error(fd)),
                None => None,
            };
            match answer {
                Some(Ok(code)) => {
                    proof {
                        lemma_first_with_port(before, port);
                    }
                    if let Some(result) = self.record_ready(port, code) {
                        results.push(result);
                    }
                },
                Some(Err(e)) => {
                    let _ = self.take_port(port);
                    proof {
                        assert(ready_ports@[i as int] == port);
                        assert(extract(start, ready_ports@.take(i as int)).0 == before);
                    }
                    return Err(e);
                },
                None => {},
            }
            i += 1;
        }
        proof {
            assert(ready_ports@.take(i as int) == ready_ports@);
            lemma_extract_conserves(start, ready_ports@);
        }
        Ok(results)
    }
}

} // verus!
