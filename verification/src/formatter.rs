//! What the scan reports show: the open ports, and how many ports ended in
//! each state.
use vstd::prelude::*;

use crate::scanner::connect::models::{PortStatus, ScanResult};
use crate::scanner::syn::target::{ScanState, ScanTarget};

verus! {

/// How many ports of a connect scan ended open, closed and timed out.
#[derive(Clone, Copy, Debug, PartialEq, Eq, Structural)]
pub struct PortCounts {
    pub open: usize,
    pub closed: usize,
    pub timeout: usize,
}

/// How many targets of a SYN scan ended open, closed and filtered, and how
/// many were still pending when the scan ended.
#[derive(Clone, Copy, Debug, PartialEq, Eq, Structural)]
pub struct HalfOpenCounts {
    pub open: usize,
    pub closed: usize,
    pub filtered: usize,
    pub pending: usize,
}

/// How many of `results` have the status `status`.
pub open spec fn count_status(results: Seq<ScanResult>, status: PortStatus) -> nat
    decreases results.len(),
{
    if results.len() == 0 {
        0
    } else {
        count_status(results.drop_last(), status) + if results.last().status == status {
            1nat
        } else {
            0nat
        }
    }
}

/// How many of `targets` are in the state `state`.
pub open spec fn count_state(targets: Seq<ScanTarget>, state: ScanState) -> nat
    decreases targets.len(),
{
    if targets.len() == 0 {
        0
    } else {
        count_state(targets.drop_last(), state) + if targets.last().state == state {
            1nat
        } else {
            0nat
        }
    }
}

/// The ports of the open results, in order.
pub open spec fn spec_open_ports(results: Seq<ScanResult>) -> Seq<u16>
    decreases results.len(),
{
    if results.len() == 0 {
        Seq::empty()
    } else {
        let before = spec_open_ports(results.drop_last());
        if results.last().status == PortStatus::Open {
            before.push(results.last().port)
        } else {
            before
        }
    }
}

/// The destination ports of the open targets, in order.
pub open spec fn spec_open_target_ports(targets: Seq<ScanTarget>) -> Seq<u16>
    decreases targets.len(),
{
    if targets.len() == 0 {
        Seq::empty()
    } else {
        let before = spec_open_target_ports(targets.drop_last());
        if targets.last().state == ScanState::Open {
            before.push(targets.last().destination.port)
        } else {
            before
        }
    }
}

/// Every result is counted once: the three counts add up to the number of
/// results.
pub proof fn lemma_counts_cover_results(results: Seq<ScanResult>)
    ensures
        count_status(results, PortStatus::Open) + count_status(results, PortStatus::Closed)
            + count_status(results, PortStatus::Timeout) == results.len(),
    decreases results.len(),
{
    if results.len() > 0 {
        lemma_counts_cover_results(results.drop_last());
    }
}

/// Every target is counted once: the four counts and the targets still
/// waiting add up to the number of targets.
pub proof fn lemma_counts_cover_targets(targets: Seq<ScanTarget>)
    ensures
        count_state(targets, ScanState::Open) + count_state(targets, ScanState::Closed)
            + count_state(targets, ScanState::Filtered) + count_state(targets, ScanState::Pending)
            + count_state(targets, ScanState::Waiting) == targets.len(),
    decreases targets.len(),
{
    if targets.len() > 0 {
        lemma_counts_cover_targets(targets.drop_last());
    }
}

/// Each status is counted once per result that has it: the count is the
/// number of results with that status.
pub proof fn lemma_count_status_is_number_with_status(results: Seq<ScanResult>, status: PortStatus)
    ensures
        count_status(results, status) == results.filter(|r: ScanResult| r.status == status).len(),
    decreases results.len(),
{
    reveal(Seq::filter);
    if results.len() > 0 {
        lemma_count_status_is_number_with_status(results.drop_last(), status);
    }
}

/// A single result counts 1 for its own status and 0 for any other.
pub proof fn lemma_count_status_single(r: ScanResult, status: PortStatus)
    ensures
        count_status(seq![r], status) == if r.status == status {
            1nat
        } else {
            0nat
        },
{
    assert(seq![r].drop_last() == Seq::<ScanResult>::empty());
    assert(seq![r].last() == r);
    assert(count_status(Seq::<ScanResult>::empty(), status) == 0);
}

/// The count of two lists of results put together is the sum of their
/// counts.
pub proof fn lemma_count_status_concat(a: Seq<ScanResult>, b: Seq<ScanResult>, status: PortStatus)
    ensures
        count_status(a + b, status) == count_status(a, status) + count_status(b, status),
    decreases b.len(),
{
    if b.len() == 0 {
        assert(a + b == a);
    } else {
        assert((a + b).drop_last() == a + b.drop_last());
        assert((a + b).last() == b.last());
        lemma_count_status_concat(a, b.drop_last(), status);
    }
}

/// Each state is counted once per target in it: the count is the number of
/// targets in that state.
pub proof fn lemma_count_state_is_number_in_state(targets: Seq<ScanTarget>, state: ScanState)
    ensures
        count_state(targets, state) == targets.filter(|t: ScanTarget| t.state == state).len(),
    decreases targets.len(),
{
    reveal(Seq::filter);
    if targets.len() > 0 {
        lemma_count_state_is_number_in_state(targets.drop_last(), state);
    }
}

/// A single target counts 1 for its own state and 0 for any other.
pub proof fn lemma_count_state_single(t: ScanTarget, state: ScanState)
    ensures
        count_state(seq![t], state) == if t.state == state {
            1nat
        } else {
            0nat
        },
{
    assert(seq![t].drop_last() == Seq::<ScanTarget>::empty());
    assert(seq![t].last() == t);
    assert(count_state(Seq::<ScanTarget>::empty(), state) == 0);
}

/// The count of two lists of targets put together is the sum of their
/// counts.
pub proof fn lemma_count_state_concat(a: Seq<ScanTarget>, b: Seq<ScanTarget>, state: ScanState)
    ensures
        count_state(a + b, state) == count_state(a, state) + count_state(b, state),
    decreases b.len(),
{
    if b.len() == 0 {
        assert(a + b == a);
    } else {
        assert((a + b).drop_last() == a + b.drop_last());
        assert((a + b).last() == b.last());
        lemma_count_state_concat(a, b.drop_last(), state);
    }
}

/// The open ports are the ports of the open results, kept in order: one
/// per open result, and none for any other.
pub proof fn lemma_open_ports_are_ports_of_open_results(results: Seq<ScanResult>)
    ensures
        spec_open_ports(results) == results.filter(|r: ScanResult| r.status == PortStatus::Open).map_values(
            |r: ScanResult| r.port,
        ),
        spec_open_ports(results).len() == count_status(results, PortStatus::Open),
        forall|p: u16|
            spec_open_ports(results).contains(p) <==> exists|i: int|
                0 <= i < results.len() && #[trigger] results[i].port == p && results[i].status
                    == PortStatus::Open,
    decreases results.len(),
{
    reveal(Seq::filter);
    if results.len() > 0 {
        let init = results.drop_last();
        let last = results.last();
        lemma_open_ports_are_ports_of_open_results(init);
        let f = results.filter(|r: ScanResult| r.status == PortStatus::Open);
        let fi = init.filter(|r: ScanResult| r.status == PortStatus::Open);
        if last.status == PortStatus::Open {
            assert(f == fi.push(last));
            assert(f.map_values(|r: ScanResult| r.port) =~= fi.map_values(|r: ScanResult| r.port).push(
                last.port,
            ));
        } else {
            assert(f == fi);
        }
        assert forall|p: u16|
            spec_open_ports(results).contains(p) <==> exists|i: int|
                0 <= i < results.len() && #[trigger] results[i].port == p && results[i].status
                    == PortStatus::Open by {
            let o = spec_open_ports(results);
            let oi = spec_open_ports(init);
            if o.contains(p) {
                let k = choose|k: int| 0 <= k < o.len() && o[k] == p;
                if k < oi.len() {
                    assert(oi[k] == p);
                    assert(oi.contains(p));
                    let i = choose|i: int|
                        0 <= i < init.len() && #[trigger] init[i].port == p && init[i].status
                            == PortStatus::Open;
                    assert(results[i] == init[i]);
                } else {
                    assert(results[results.len() - 1] == last);
                }
            }
            if exists|i: int|
                0 <= i < results.len() && #[trigger] results[i].port == p && results[i].status
                    == PortStatus::Open {
                let i = choose|i: int|
                    0 <= i < results.len() && #[trigger] results[i].port == p && results[i].status
                        == PortStatus::Open;
                if i < init.len() {
                    assert(init[i] == results[i]);
                    assert(oi.contains(p));
                    let k = choose|k: int| 0 <= k < oi.len() && oi[k] == p;
                    assert(o[k] == p);
                } else {
                    assert(o[o.len() - 1] == p);
                }
            }
        }
    }
}

/// The open ports of two lists of results put together are those of the
/// first followed by those of the second; a single result gives its port
/// when it is open, and nothing otherwise.
pub proof fn lemma_open_ports_concat(a: Seq<ScanResult>, b: Seq<ScanResult>, r: ScanResult)
    ensures
        spec_open_ports(a + b) == spec_open_ports(a) + spec_open_ports(b),
        spec_open_ports(seq![r]) == if r.status == PortStatus::Open {
            seq![r.port]
        } else {
            Seq::<u16>::empty()
        },
    decreases b.len(),
{
    assert(seq![r].drop_last() == Seq::<ScanResult>::empty());
    assert(seq![r].last() == r);
    assert(spec_open_ports(Seq::<ScanResult>::empty()) == Seq::<u16>::empty());
    assert(Seq::<u16>::empty().push(r.port) == seq![r.port]);
    if b.len() == 0 {
        assert(a + b == a);
        assert(spec_open_ports(a) + Seq::<u16>::empty() == spec_open_ports(a));
    } else {
        assert((a + b).drop_last() == a + b.drop_last());
        assert((a + b).last() == b.last());
        lemma_open_ports_concat(a, b.drop_last(), r);
        assert((spec_open_ports(a) + spec_open_ports(b.drop_last())).push(b.last().port)
            == spec_open_ports(a) + spec_open_ports(b.drop_last()).push(b.last().port));
    }
}

/// The open target ports are the destination ports of the open targets,
/// kept in order: one per open target, and none for any other.
pub proof fn lemma_open_target_ports_are_ports_of_open_targets(targets: Seq<ScanTarget>)
    ensures
        spec_open_target_ports(targets) == targets.filter(|t: ScanTarget| t.state == ScanState::Open).map_values(
            |t: ScanTarget| t.destination.port,
        ),
    decreases targets.len(),
{
    reveal(Seq::filter);
    if targets.len() > 0 {
        let init = targets.drop_last();
        let last = targets.last();
        lemma_open_target_ports_are_ports_of_open_targets(init);
        let f = targets.filter(|t: ScanTarget| t.state == ScanState::Open);
        let fi = init.filter(|t: ScanTarget| t.state == ScanState::Open);
        if last.state == ScanState::Open {
            assert(f == fi.push(last));
            assert(f.map_values(|t: ScanTarget| t.destination.port) =~= fi.map_values(
                |t: ScanTarget| t.destination.port,
            ).push(last.destination.port));
        } else {
            assert(f == fi);
        }
    }
}

/// The open target ports of two lists of targets put together are those
/// of the first followed by those of the second; a single target gives its
/// destination port when it is open, and nothing otherwise.
pub proof fn lemma_open_target_ports_concat(a: Seq<ScanTarget>, b: Seq<ScanTarget>, t: ScanTarget)
    ensures
        spec_open_target_ports(a + b) == spec_open_target_ports(a) + spec_open_target_ports(b),
        spec_open_target_ports(seq![t]) == if t.state == ScanState::Open {
            seq![t.destination.port]
        } else {
            Seq::<u16>::empty()
        },
    decreases b.len(),
{
    assert(seq![t].drop_last() == Seq::<ScanTarget>::empty());
    assert(seq![t].last() == t);
    assert(spec_open_target_ports(Seq::<ScanTarget>::empty()) == Seq::<u16>::empty());
    assert(Seq::<u16>::empty().push(t.destination.port) == seq![t.destination.port]);
    if b.len() == 0 {
        assert(a + b == a);
        assert(spec_open_target_ports(a) + Seq::<u16>::empty() == spec_open_target_ports(a));
    } else {
        assert((a + b).drop_last() == a + b.drop_last());
        assert((a + b).last() == b.last());
        lemma_open_target_ports_concat(a, b.drop_last(), t);
        assert((spec_open_target_ports(a) + spec_open_target_ports(b.drop_last())).push(
            b.last().destination.port,
        ) == spec_open_target_ports(a) + spec_open_target_ports(b.drop_last()).push(
            b.last().destination.port,
        ));
    }
}

/// Counts the results of a connect scan by status.
pub fn summarize(results: &Vec<ScanResult>) -> (counts: PortCounts)
    ensures
        counts.open == count_status(results@, PortStatus::Open),
        counts.closed == count_status(results@, PortStatus::Closed),
        counts.timeout == count_status(results@, PortStatus::Timeout),
{
    let n = results.len();
    let mut counts = PortCounts { open: 0, closed: 0, timeout: 0 };
    let mut i: usize = 0;
    while i < n
        invariant
            n == results@.len(),
            i <= n,
            counts.open == count_status(results@.take(i as int), PortStatus::Open),
            counts.closed == count_status(results@.take(i as int), PortStatus::Closed),
            counts.timeout == count_status(results@.take(i as int), PortStatus::Timeout),
        decreases n - i,
    {
        proof {
            assert(results@.take(i + 1).drop_last() == results@.take(i as int));
            lemma_counts_cover_results(results@.take(i as int));
        }
        match results[i].status {
            PortStatus::Open => counts.open = counts.open + 1,
            PortStatus::Closed => counts.closed = counts.closed + 1,
            PortStatus::Timeout => counts.timeout = counts.timeout + 1,
        }
        i += 1;
    }
    proof {
        assert(results@.take(n as int) == results@);
    }
    counts
}

/// Counts the targets of a SYN scan by state; targets still waiting are
/// not counted.
pub fn summarize_half_open(targets: &Vec<ScanTarget>) -> (counts: HalfOpenCounts)
    ensures
        counts.open == count_state(targets@, ScanState::Open),
        counts.closed == count_state(targets@, ScanState::Closed),
        counts.filtered == count_state(targets@, ScanState::Filtered),
        counts.pending == count_state(targets@, ScanState::Pending),
{
    let n = targets.len();
    let mut counts = HalfOpenCounts { open: 0, closed: 0, filtered: 0, pending: 0 };
    let mut i: usize = 0;
    while i < n
        invariant
            n == targets@.len(),
            i <= n,
            counts.open == count_state(targets@.take(i as int), ScanState::Open),
            counts.closed == count_state(targets@.take(i as int), ScanState::Closed),
            counts.filtered == count_state(targets@.take(i as int), ScanState::Filtered),
            counts.pending == count_state(targets@.take(i as int), ScanState::Pending),
        decreases n - i,
    {
        proof {
            assert(targets@.take(i + 1).drop_last() == targets@.take(i as int));
            lemma_counts_cover_targets(targets@.take(i as int));
        }
        match targets[i].state {
            ScanState::Open => counts.open = counts.open + 1,
            ScanState::Closed => counts.closed = counts.closed + 1,
            ScanState::Filtered => counts.filtered = counts.filtered + 1,
            ScanState::Waiting => {},
            ScanState::Pending => counts.pending = counts.pending + 1,
        }
        i += 1;
    }
    proof {
        assert(targets@.take(n as int) == targets@);
    }
    counts
}

/// The ports of the open results of a connect scan, in order.
pub fn open_ports(results: &Vec<ScanResult>) -> (ports: Vec<u16>)
    ensures
        ports@ == spec_open_ports(results@),
{
    let n = results.len();
    let mut ports: Vec<u16> = Vec::new();
    let mut i: usize = 0;
    while i < n
        invariant
            n == results@.len(),
            i <= n,
            ports@ == spec_open_ports(results@.take(i as int)),
        decreases n - i,
    {
        proof {
            assert(results@.take(i + 1).drop_last() == results@.take(i as int));
        }
        if results[i].status == PortStatus::Open {
            ports.push(results[i].port);
        }
        i += 1;
    }
    proof {
        assert(results@.take(n as int) == results@);
    }
    ports
}

/// The destination ports of the open targets of a SYN scan, in order.
pub fn open_target_ports(targets: &Vec<ScanTarget>) -> (ports: Vec<u16>)
    ensures
        ports@ == spec_open_target_ports(targets@),
{
    let n = targets.len();
    let mut ports: Vec<u16> = Vec::new();
    let mut i: usize = 0;
    while i < n
        invariant
            n == targets@.len(),
            i <= n,
            ports@ == spec_open_target_ports(targets@.take(i as int)),
        decreases n - i,
    {
        proof {
            assert(targets@.take(i + 1).drop_last() == targets@.take(i as int));
        }
        if targets[i].state == ScanState::Open {
            ports.push(targets[i].destination.port);
        }
        i += 1;
    }
    proof {
        assert(targets@.take(n as int) == targets@);
    }
    ports
}

/// The word a verbose report shows for `status`.
pub fn status_label(status: PortStatus) -> (label: &'static str)
    ensures
        status == PortStatus::Open ==> label@ == "OPEN"@,
        status == PortStatus::Closed ==> label@ == "CLOSED"@,
        status == PortStatus::Timeout ==> label@ == "TIMEOUT"@,
{
    match status {
        PortStatus::Open => "OPEN",
        PortStatus::Closed => "CLOSED",
        PortStatus::Timeout => "TIMEOUT",
    }
}

} // verus!
