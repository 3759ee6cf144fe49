//! The scanners. This module itself holds the single-port connect scanner,
//! which reports ready connections by their position among the pending
//! ones; `connect` holds the range connect scanner with timeouts, `syn`
//! the half-open (SYN) scanner.
pub mod connect;
pub mod syn;

use vstd::prelude::*;

use crate::address::Ipv4Address;
use crate::scanner::connect::models::{PortStatus, ScanResult};
use crate::scanner::connect::scanner::{
    ConnectOutcome, reports_socket_error, status_of_socket_error, writable_ports,
};

verus! {

/// A connection attempt that has not finished yet.
pub struct PendingConnection<H> {
    pub fd: H,
    pub port: u16,
}

/// A connect scanner of one target address.
pub struct Scanner<H> {
    ip: Ipv4Address,
    pending: Vec<PendingConnection<H>>,
}

/// Whether the positions `idxs` can be removed from a sequence of length
/// `n` one after the other, the last position first: each one is then
/// inside what is left.
pub open spec fn removable_from_back(n: int, idxs: Seq<usize>) -> bool {
    forall|j: int| 0 <= j < idxs.len() ==> #[trigger] idxs[j] < n - (idxs.len() - 1 - j)
}

/// Removes from `s` the elements at the positions `idxs`, the last position
/// first. Gives what is left and, in the order of removal, what was removed.
pub open spec fn take_at_from_back<H>(s: Seq<PendingConnection<H>>, idxs: Seq<usize>) -> (Seq<
    PendingConnection<H>,
>, Seq<PendingConnection<H>>)
    decreases idxs.len(),
{
    if idxs.len() == 0 {
        (s, Seq::empty())
    } else {
        let i = idxs.last() as int;
        let (rest, taken) = take_at_from_back(s.remove(i), idxs.drop_last());
        (rest, seq![s[i]] + taken)
    }
}

/// The positions `i` (in increasing order) whose flag in `writable` is set.
pub open spec fn set_positions(writable: Seq<bool>) -> Seq<usize>
    decreases writable.len(),
{
    if writable.len() == 0 {
        Seq::empty()
    } else {
        let before = set_positions(writable.drop_last());
        if writable.last() {
            before.push((writable.len() - 1) as usize)
        } else {
            before
        }
    }
}

/// The ready positions are the positions whose flag is set, each once and
/// in increasing order.
pub proof fn lemma_set_positions_are_set_flags(writable: Seq<bool>)
    requires
        writable.len() <= usize::MAX,
    ensures
        forall|k: int|
            0 <= k < set_positions(writable).len() ==> #[trigger] set_positions(writable)[k]
                < writable.len() && writable[set_positions(writable)[k] as int],
        forall|k: int, l: int|
            0 <= k < l < set_positions(writable).len() ==> #[trigger] set_positions(writable)[k]
                < #[trigger] set_positions(writable)[l],
        forall|i: int|
            0 <= i < writable.len() && #[trigger] writable[i] ==> set_positions(writable).contains(
                i as usize,
            ),
    decreases writable.len(),
{
    if writable.len() > 0 {
        let init = writable.drop_last();
        lemma_set_positions_are_set_flags(init);
        let p = set_positions(writable);
        let pi = set_positions(init);
        assert forall|k: int| 0 <= k < pi.len() implies #[trigger] pi[k] < init.len() && writable[pi[k] as int] by {
            assert(init[pi[k] as int] == writable[pi[k] as int]);
        }
        if writable.last() {
            assert(p == pi.push((writable.len() - 1) as usize));
            assert(((writable.len() - 1) as usize) as int == writable.len() - 1);
            assert forall|k: int| 0 <= k < pi.len() implies p[k] == pi[k] by {}
        } else {
            assert(p == pi);
        }
        assert forall|i: int| 0 <= i < writable.len() && #[trigger] writable[i] implies p.contains(
            i as usize,
        ) by {
            if i < writable.len() - 1 {
                assert(init[i] == writable[i]);
                assert(pi.contains(i as usize));
                let k = choose|k: int| 0 <= k < pi.len() && pi[k] == i as usize;
                assert(p[k] == i as usize);
            } else {
                assert(p[p.len() - 1] == i as usize);
            }
        }
    }
}

/// The ports that answered are those of the connections whose flag is set,
/// in pending order: the port of the connection at each ready position.
pub proof fn lemma_writable_ports_at_set_positions<H>(
    s: Seq<crate::scanner::connect::scanner::PendingConnection<H>>,
    writable: Seq<bool>,
)
    requires
        s.len() == writable.len(),
        writable.len() <= usize::MAX,
    ensures
        writable_ports(s, writable) == set_positions(writable).map_values(|i: usize| s[i as int].port),
    decreases s.len(),
{
    if s.len() > 0 {
        let si = s.drop_last();
        let wi = writable.drop_last();
        lemma_writable_ports_at_set_positions(si, wi);
        lemma_set_positions_are_set_flags(wi);
        let pi = set_positions(wi);
        assert(pi.map_values(|i: usize| si[i as int].port) =~= pi.map_values(|i: usize| s[i as int].port)) by {
            assert forall|k: int| 0 <= k < pi.len() implies si[pi[k] as int] == s[pi[k] as int] by {
                assert(pi[k] < wi.len());
            }
        }
        if writable.last() {
            assert(set_positions(writable) == pi.push((writable.len() - 1) as usize));
            assert(((writable.len() - 1) as usize) as int == s.len() - 1);
            assert(set_positions(writable).map_values(|i: usize| s[i as int].port) =~= pi.map_values(
                |i: usize| s[i as int].port,
            ).push(s.last().port));
        }
    }
}

/// Removing positions from the back loses and duplicates nothing: what is
/// left and what was removed are, together, what there was.
pub proof fn lemma_take_at_from_back_conserves<H>(s: Seq<PendingConnection<H>>, idxs: Seq<usize>)
    requires
        removable_from_back(s.len() as int, idxs),
    ensures
        s.to_multiset() =~= take_at_from_back(s, idxs).0.to_multiset().add(
            take_at_from_back(s, idxs).1.to_multiset(),
        ),
        take_at_from_back(s, idxs).1.len() == idxs.len(),
        take_at_from_back(s, idxs).0.len() == s.len() - idxs.len(),
    decreases idxs.len(),
{
    broadcast use vstd::seq_lib::group_to_multiset_ensures, vstd::multiset::group_multiset_axioms;

    if idxs.len() > 0 {
        let i = idxs.last() as int;
        let p = s[i];
        let after = s.remove(i);
        assert(removable_from_back(after.len() as int, idxs.drop_last())) by {
            assert forall|j: int| 0 <= j < idxs.drop_last().len() implies #[trigger] idxs.drop_last()[j]
                < after.len() - (idxs.drop_last().len() - 1 - j) by {
                assert(idxs[j] < s.len() - (idxs.len() - 1 - j));
            }
        }
        lemma_take_at_from_back_conserves(after, idxs.drop_last());
        let (rest, more) = take_at_from_back(after, idxs.drop_last());
        vstd::seq_lib::lemma_multiset_commutative(seq![p], more);
        assert(seq![p] == Seq::<PendingConnection<H>>::empty().push(p));
        assert(seq![p].to_multiset() =~= vstd::multiset::Multiset::empty().insert(p));
        assert(s.contains(p));
        assert(after.to_multiset() =~= s.to_multiset().remove(p));
        assert(s.to_multiset() =~= after.to_multiset().insert(p));
    }
}


/// Removing the positions `seq![x] + rest` from the back is removing those
/// of `rest` and then `x`: the element at `x` is the last one removed.
pub proof fn lemma_take_at_from_back_front<H>(s: Seq<PendingConnection<H>>, x: usize, rest: Seq<usize>)
    ensures
        take_at_from_back(s, seq![x] + rest).0 == take_at_from_back(s, rest).0.remove(x as int),
        take_at_from_back(s, seq![x] + rest).1 == take_at_from_back(s, rest).1.push(
            take_at_from_back(s, rest).0[x as int],
        ),
    decreases rest.len(),
{
    let q = seq![x] + rest;
    if rest.len() == 0 {
        assert(q == seq![x]);
        assert(q.drop_last() == Seq::<usize>::empty());
        assert(q.last() == x);
        assert(take_at_from_back(s.remove(x as int), Seq::<usize>::empty()).0 == s.remove(x as int));
        assert(take_at_from_back(s, rest).0 == s);
        assert(take_at_from_back(s, rest).1 == Seq::<PendingConnection<H>>::empty());
        assert(seq![s[x as int]] + Seq::<PendingConnection<H>>::empty() == Seq::<PendingConnection<H>>::empty().push(s[x as int]));
    } else {
        let i = rest.last() as int;
        assert(q.last() == rest.last());
        assert(q.drop_last() == seq![x] + rest.drop_last());
        lemma_take_at_from_back_front(s.remove(i), x, rest.drop_last());
        assert(take_at_from_back(s, q).0 == take_at_from_back(s.remove(i), q.drop_last()).0);
        assert(take_at_from_back(s, rest).0 == take_at_from_back(s.remove(i), rest.drop_last()).0);
        let t = take_at_from_back(s.remove(i), rest.drop_last());
        assert(seq![s[i]] + t.1.push(t.0[x as int]) == (seq![s[i]] + t.1).push(t.0[x as int]));
    }
}

impl<H> Scanner<H> {
    /// The address this scanner connects to.
    pub closed spec fn spec_ip(&self) -> Ipv4Address {
        self.ip
    }

    /// The connection attempts that have not finished, oldest first.
    pub closed spec fn pending_seq(&self) -> Seq<PendingConnection<H>> {
        self.pending@
    }

    /// A scanner of `ip` with no connection attempt under way.
    pub fn new(ip: Ipv4Address) -> (s: Self)
        ensures
            s.spec_ip() == ip,
            s.pending_seq() == Seq::<PendingConnection<H>>::empty(),
    {
        Self { ip, pending: Vec::new() }
    }

    /// The address this scanner connects to.
    pub fn ip(&self) -> (ip: Ipv4Address)
        ensures
            ip == self.spec_ip(),
    {
        self.ip
    }

    /// The connection attempts that have not finished, oldest first.
    pub fn pending(&self) -> (p: &Vec<PendingConnection<H>>)
        ensures
            p@ == self.pending_seq(),
    {
        &self.pending
    }

    /// Records the outcome of starting a connection to `port` on the socket
    /// `fd`: a connection under way is kept pending (with its socket) and
    /// reported later; any other outcome is reported now.
    pub fn start_connection(&mut self, port: u16, fd: H, outcome: ConnectOutcome) -> (res: Option<
        ScanResult,
    >)
        ensures
            final(self).spec_ip() == old(self).spec_ip(),
            outcome == ConnectOutcome::InProgress ==> res is None && final(self).pending_seq()
                == old(self).pending_seq().push(PendingConnection { fd, port }),
            outcome == ConnectOutcome::Connected ==> res == Some(
                ScanResult { port, status: PortStatus::Open },
            ),
            outcome == ConnectOutcome::Refused ==> res == Some(
                ScanResult { port, status: PortStatus::Closed },
            ),
            outcome == ConnectOutcome::TimedOut ==> res == Some(
                ScanResult { port, status: PortStatus::Timeout },
            ),
            outcome != ConnectOutcome::InProgress ==> final(self).pending_seq() == old(
                self,
            ).pending_seq(),
    {
        match outcome {
            ConnectOutcome::Connected => Some(ScanResult { port, status: PortStatus::Open }),
            ConnectOutcome::InProgress => {
                self.pending.push(PendingConnection { fd, port });
                None
            },
            ConnectOutcome::Refused => Some(ScanResult { port, status: PortStatus::Closed }),
            ConnectOutcome::TimedOut => Some(ScanResult { port, status: PortStatus::Timeout }),
        }
    }

    /// Given which pending sockets a poll reported writable (one flag per
    /// pending connection, in order), gives their positions in increasing
    /// order.
    pub fn ready_positions(&self, writable: &Vec<bool>) -> (ready: Vec<usize>)
        requires
            writable.len() == self.pending_seq().len(),
        ensures
            ready@ == set_positions(writable@),
            removable_from_back(self.pending_seq().len() as int, ready@),
    {
        let n = writable.len();
        let mut ready: Vec<usize> = Vec::new();
        let mut i: usize = 0;
        while i < n
            invariant
                n == writable@.len(),
                i <= n,
                ready@ == set_positions(writable@.take(i as int)),
                forall|j: int| 0 <= j < ready@.len() ==> #[trigger] ready@[j] < i - (ready@.len() - 1 - j),
            decreases n - i,
        {
            proof {
                assert(writable@.take(i + 1).drop_last() == writable@.take(i as int));
            }
            if writable[i] {
                ready.push(i);
            }
            i += 1;
        }
        proof {
            assert(writable@.take(n as int) == writable@);
        }
        ready
    }

    /// Takes in the pending error code `so_error` (`SO_ERROR`) read once from
    /// the socket of the pending connection at `position`: drops that
    /// connection and reports its port, open when the code is 0 and closed
    /// otherwise.
    pub fn record_connection(&mut self, position: usize, so_error: i32) -> (r: ScanResult)
        requires
            position < old(self).pending_seq().len(),
        ensures
            final(self).spec_ip() == old(self).spec_ip(),
            r == (ScanResult {
                port: old(self).pending_seq()[position as int].port,
                status: status_of_socket_error(so_error),
            }),
            final(self).pending_seq() == old(self).pending_seq().remove(position as int),
    {
        let conn = self.pending.remove(position);
        let status = if so_error == 0 {
            PortStatus::Open
        } else {
            PortStatus::Closed
        };
        ScanResult { port: conn.port, status }
    }

    /// Drops the pending connections at the positions `ready` (the last
    /// position first) and reports each one's port: `socket_error` is asked
    /// once for its socket, and its answer is taken in as
    /// `record_connection` does (open on 0, closed on another error code).
    /// Stops at the first failure of `socket_error` and returns it.
    pub fn connection_results<E, F: Fn(&H) -> Result<i32, E>>(
        &mut self,
        ready: Vec<usize>,
        socket_error: F,
    ) -> (res: Result<Vec<ScanResult>, E>)
        requires
            removable_from_back(old(self).pending_seq().len() as int, ready@),
            forall|h: &H| call_requires(socket_error, (h,)),
        ensures
            final(self).spec_ip() == old(self).spec_ip(),
            res matches Ok(results) ==> {
                let (rest, taken) = take_at_from_back(old(self).pending_seq(), ready@);
                &&& final(self).pending_seq() == rest
                &&& results@.len() == taken.len()
                &&& results@.len() + final(self).pending_seq().len() == old(self).pending_seq().len()
                &&& forall|k: int| 0 <= k < taken.len() ==> #[trigger] results@[k].port == taken[k].port
                &&& forall|k: int|
                    0 <= k < taken.len() ==> reports_socket_error(
                        socket_error,
                        taken[k].fd,
                        #[trigger] results@[k].status,
                    )
            },
            res matches Err(e) ==> exists|j: int|
                0 <= j < ready@.len() && ({
                    let (rest, taken) = take_at_from_back(old(self).pending_seq(), #[trigger] ready@.skip(j));
                    &&& final(self).pending_seq() == rest
                    &&& call_ensures(socket_error, (&taken.last().fd,), Err(e))
                }),
    {
        let mut results: Vec<ScanResult> = Vec::new();
        let ghost start = self.pending@;
        let ghost mut taken_so_far: Seq<PendingConnection<H>> = Seq::empty();
        let mut left: usize = ready.len();
        proof {
            assert(ready@.take(left as int) == ready@);
            assert(taken_so_far + take_at_from_back(start, ready@).1 == take_at_from_back(
                start,
                ready@,
            ).1);
        }
        while left > 0
            invariant
                left <= ready@.len(),
                self.ip == old(self).ip,
                start == old(self).pending@,
                forall|h: &H| call_requires(socket_error, (h,)),
                removable_from_back(self.pending@.len() as int, ready@.take(left as int)),
                self.pending@ == take_at_from_back(start, ready@.skip(left as int)).0,
                take_at_from_back(start, ready@) == (
                    take_at_from_back(self.pending@, ready@.take(left as int)).0,
                    taken_so_far + take_at_from_back(self.pending@, ready@.take(left as int)).1,
                ),
                results@.len() == taken_so_far.len(),
                forall|k: int| 0 <= k < results@.len() ==> #[trigger] results@[k].port == taken_so_far[k].port,
                forall|k: int|
                    0 <= k < results@.len() ==> reports_socket_error(
                        socket_error,
                        taken_so_far[k].fd,
                        #[trigger] results@[k].status,
                    ),
            decreases left,
        {
            let ghost prefix = ready@.take(left as int);
            let ghost before = self.pending@;
            let i = ready[left - 1];
            proof {
                assert(prefix.last() == i);
                assert(prefix.drop_last() == ready@.take(left - 1));
                assert(prefix[left - 1] < before.len() - (prefix.len() - 1 - (left - 1)));
            }
            let ghost conn = before[i as int];
            let answer = socket_error(&self.pending[i].fd);
            proof {
                assert(ready@.skip(left - 1) == seq![i] + ready@.skip(left as int));
                lemma_take_at_from_back_front(start, i, ready@.skip(left as int));
                let (r, t) = take_at_from_back(before.remove(i as int), ready@.take(left - 1));
                assert(take_at_from_back(before, prefix).1 == seq![conn] + t);
                assert(taken_so_far + (seq![conn] + t) == taken_so_far.push(conn) + t);
                taken_so_far = taken_so_far.push(conn);
                assert(removable_from_back(before.remove(i as int).len() as int, ready@.take(left - 1))) by {
                    assert forall|j: int| 0 <= j < ready@.take(left - 1).len() implies #[trigger] ready@.take(
                        left - 1,
                    )[j] < before.remove(i as int).len() - (ready@.take(left - 1).len() - 1 - j) by {
                        assert(prefix[j] < before.len() - (prefix.len() - 1 - j));
                    }
                }
            }
            match answer {
                Ok(code) => {
                    let result = self.record_connection(i, code);
                    results.push(result);
                },
                Err(e) => {
                    let _ = self.pending.remove(i);
                    proof {
                        let j = left - 1;
                        assert(take_at_from_back(start, ready@.skip(j)).1.last() == conn);
                    }
                    return Err(e);
                },
            }
            left -= 1;
        }
        proof {
            assert(ready@.take(0) == Seq::<usize>::empty());
            assert(taken_so_far + Seq::<PendingConnection<H>>::empty() == taken_so_far);
            lemma_take_at_from_back_conserves(start, ready@);
        }
        Ok(results)
    }
}

} // verus!
