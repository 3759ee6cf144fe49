//! The decisions of the SYN (half-open) scanner: which probes to send,
//! what a reply means for its target, and when a probe has waited long
//! enough.
//!
//! The sending itself is done by a function the caller hands in; the time
//! is given by the caller as milliseconds on a clock of its choice that
//! does not go back.
use std::collections::HashMap;
use vstd::std_specs::iter::IteratorSpec;
use vstd::prelude::*;

use crate::address::SocketAddress;
use crate::scanner::syn::packet::{
    parse_packet, parsed_reply, TcpHeader, IP_HEADER_LENGTH, TCP_FLAG_ACK, TCP_FLAG_RST,
    TCP_FLAG_SYN,
};
use crate::scanner::syn::target::{ScanState, ScanTarget};

verus! {

broadcast use vstd::std_specs::hash::group_hash_axioms;

/// How long a probe may stay unanswered, in milliseconds, before its
/// target is marked filtered.
pub const TIMEOUT_MS: u64 = 150;

/// How many probes may be unanswered at once.
pub const WINDOW_SIZE: usize = 5000;

/// What sending a probe came to.
#[derive(Clone, Copy, Debug, PartialEq, Eq, Structural)]
pub enum SendOutcome {
    /// The probe was sent.
    Sent,
    /// The socket cannot take more now (`EAGAIN`); try again later.
    WouldBlock,
    /// Sending failed for another reason.
    Failed,
}

/// A SYN scanner: its targets in the order they were added, the probes
/// sent so far, and those still unanswered.
pub struct Scanner<S> {
    sender: S,
    next_to_send: usize,
    pub targets: Vec<ScanTarget>,
    /// Sequence number -> position of its target in `targets`.
    index: HashMap<u32, usize>,
    /// Sequence number of an unanswered probe -> when it was sent.
    pending: HashMap<u32, u64>,
}

/// The state of a SYN scanner, as a value.
pub struct ScannerView {
    /// The position of the next target to probe.
    pub next_to_send: int,
    pub targets: Seq<ScanTarget>,
    /// Sequence number -> position of its target.
    pub index: Map<u32, usize>,
    /// Sequence number of an unanswered probe -> when it was sent.
    pub pending: Map<u32, u64>,
}

impl ScannerView {
    /// The scanner's invariant: the targets still to probe come after
    /// those already probed, and no probed target is still waiting; the
    /// targets can be counted in a `usize`; each indexed sequence number
    /// leads to a target that has it; each target's sequence number is
    /// indexed; each unanswered probe is indexed; at most `WINDOW_SIZE` are
    /// unanswered.
    pub open spec fn wf(self) -> bool {
        &&& 0 <= self.next_to_send <= self.targets.len()
        &&& self.targets.len() <= usize::MAX
        &&& forall|i: int|
            0 <= i < self.next_to_send ==> #[trigger] self.targets[i].state != ScanState::Waiting
        &&& self.pending.dom().finite()
        &&& self.pending.len() <= WINDOW_SIZE
        &&& forall|s: u32|
            #[trigger] self.index.contains_key(s) ==> self.index[s] < self.targets.len()
                && self.targets[self.index[s] as int].sequence_number == s
        &&& forall|i: int|
            0 <= i < self.targets.len() ==> self.index.contains_key(
                #[trigger] self.targets[i].sequence_number,
            )
        &&& forall|s: u32| #[trigger] self.pending.contains_key(s) ==> self.index.contains_key(s)
    }

    /// The same state with the target at `i` put into `state`.
    pub open spec fn with_state(self, i: int, state: ScanState) -> ScannerView {
        ScannerView {
            targets: self.targets.update(i, ScanTarget { state, ..self.targets[i] }),
            ..self
        }
    }
}

/// What a reply with the flags `flags` to the probe with sequence number
/// `sequence` does: nothing when no target has that sequence number;
/// otherwise its target becomes open on SYN with ACK, closed on RST (and
/// stays as it was on other flags), and the probe is no longer unanswered.
pub open spec fn after_reply(v: ScannerView, sequence: u32, flags: u8) -> ScannerView {
    if !v.index.contains_key(sequence) {
        v
    } else {
        let i = v.index[sequence] as int;
        let w = ScannerView { pending: v.pending.remove(sequence), ..v };
        if flags & TCP_FLAG_SYN != 0 && flags & TCP_FLAG_ACK != 0 {
            w.with_state(i, ScanState::Open)
        } else if flags & TCP_FLAG_RST != 0 {
            w.with_state(i, ScanState::Closed)
        } else {
            w
        }
    }
}

/// Whether a probe sent at `sent_at_ms` has waited at least `TIMEOUT_MS`
/// at `now_ms` (a probe sent after `now_ms` has waited 0 ms).
pub open spec fn is_expired(sent_at_ms: u64, now_ms: u64) -> bool {
    now_ms >= sent_at_ms && now_ms - sent_at_ms >= TIMEOUT_MS
}

/// The sequence numbers of the unanswered probes that have expired at `now_ms`.
pub open spec fn expired_sequences(pending: Map<u32, u64>, now_ms: u64) -> Set<u32> {
    pending.dom().filter(|s: u32| is_expired(pending[s], now_ms))
}

/// Whether the target at `i` is the one whose probe has expired at `now_ms`.
pub open spec fn target_timed_out(v: ScannerView, i: int, now_ms: u64) -> bool {
    let s = v.targets[i].sequence_number;
    &&& v.pending.contains_key(s)
    &&& is_expired(v.pending[s], now_ms)
    &&& v.index[s] == i
}


/// Whether a target at a position in `lo..hi` of `v` has been sent its
/// probe and has the sequence number `s`.
pub open spec fn newly_sent(v: ScannerView, lo: int, hi: int, s: u32) -> bool {
    exists|i: int|
        lo <= i < hi && #[trigger] v.targets[i].sequence_number == s && v.targets[i].state
            == ScanState::Pending
}

/// Whether `after` is `before` once `send` has been called for it through
/// `sender`: pending when the call could have given `Sent`, filtered when
/// it could have given `Failed`.
pub open spec fn sent_or_failed<S, F: Fn(&S, SocketAddress, SocketAddress, u32) -> SendOutcome>(
    send: F,
    sender: S,
    before: ScanTarget,
    after: ScanTarget,
) -> bool {
    let args = (&sender, before.source, before.destination, before.sequence_number);
    ||| after == (ScanTarget { state: ScanState::Pending, ..before }) && call_ensures(
        send,
        args,
        SendOutcome::Sent,
    )
    ||| after == (ScanTarget { state: ScanState::Filtered, ..before }) && call_ensures(
        send,
        args,
        SendOutcome::Failed,
    )
}


/// What the outcome `outcome` of sending the probe of the next target (the
/// one at `v.next_to_send`) does, the probe having gone out at
/// `sent_at_ms`: once sent, the target is pending, its probe unanswered
/// since `sent_at_ms`, and the next target is the one after it; once
/// failed, the target is filtered and the next target is the one after it;
/// when the socket would block, nothing changes.
pub open spec fn after_send(v: ScannerView, outcome: SendOutcome, sent_at_ms: u64) -> ScannerView {
    let i = v.next_to_send;
    let t = v.targets[i];
    match outcome {
        SendOutcome::Sent => ScannerView {
            next_to_send: i + 1,
            targets: v.targets.update(i, ScanTarget { state: ScanState::Pending, ..t }),
            pending: v.pending.insert(t.sequence_number, sent_at_ms),
            ..v
        },
        SendOutcome::Failed => ScannerView {
            next_to_send: i + 1,
            targets: v.targets.update(i, ScanTarget { state: ScanState::Filtered, ..t }),
            ..v
        },
        SendOutcome::WouldBlock => v,
    }
}

/// Taking in the outcome of sending the next target's probe: once sent, that
/// target is pending, its probe unanswered since the send time, and the
/// next target to probe is the one after it; once failed, it is filtered
/// and the next target is the one after it; when the socket would block,
/// nothing changes. No other target and no other probe changes, and the
/// invariant is kept.
pub proof fn lemma_send_outcome_decides_next_target(v: ScannerView, outcome: SendOutcome, sent_at_ms: u64)
    requires
        v.wf(),
        v.next_to_send < v.targets.len(),
        v.pending.len() < WINDOW_SIZE,
    ensures
        ({
            let w = after_send(v, outcome, sent_at_ms);
            let i = v.next_to_send;
            let t = v.targets[i];
            &&& w.wf()
            &&& w.index == v.index
            &&& w.targets.len() == v.targets.len()
            &&& forall|j: int| 0 <= j < v.targets.len() && j != i ==> #[trigger] w.targets[j] == v.targets[j]
            &&& forall|q: u32| q != t.sequence_number ==> #[trigger] w.pending.contains_key(q)
                == v.pending.contains_key(q) && w.pending[q] == v.pending[q]
            &&& outcome == SendOutcome::Sent ==> {
                &&& w.next_to_send == i + 1
                &&& w.targets[i] == ScanTarget { state: ScanState::Pending, ..t }
                &&& w.pending.contains_key(t.sequence_number)
                &&& w.pending[t.sequence_number] == sent_at_ms
            }
            &&& outcome == SendOutcome::Failed ==> {
                &&& w.next_to_send == i + 1
                &&& w.targets[i] == ScanTarget { state: ScanState::Filtered, ..t }
                &&& w.pending == v.pending
            }
            &&& outcome == SendOutcome::WouldBlock ==> w == v
        }),
{
    let w = after_send(v, outcome, sent_at_ms);
    let t = v.targets[v.next_to_send];
    assert forall|j: int| 0 <= j < w.targets.len() implies w.targets[j].sequence_number
        == v.targets[j].sequence_number by {}
    assert(v.index.contains_key(t.sequence_number));
    if outcome == SendOutcome::Sent {
        assert(w.pending.len() <= WINDOW_SIZE) by {
            if v.pending.contains_key(t.sequence_number) {
                assert(w.pending.dom() =~= v.pending.dom());
            } else {
                assert(w.pending.dom() =~= v.pending.dom().insert(t.sequence_number));
            }
        }
    }
}

/// A probe has expired exactly when it was sent at or before `now_ms` and
/// at least `TIMEOUT_MS` milliseconds have passed since; the expired
/// sequence numbers are those of the unanswered probes that have.
pub proof fn lemma_expired_after_timeout(pending: Map<u32, u64>, now_ms: u64, sequence: u32)
    ensures
        expired_sequences(pending, now_ms).contains(sequence) <==> pending.contains_key(sequence)
            && pending[sequence] + 150 <= now_ms,
{
}

/// A target times out exactly when its probe is unanswered, was sent at or
/// before `now_ms` at least `TIMEOUT_MS` milliseconds ago, and its
/// sequence number leads to it.
pub proof fn lemma_target_timed_out_when_probe_expired(v: ScannerView, i: int, now_ms: u64)
    ensures
        target_timed_out(v, i, now_ms) <==> ({
            let q = v.targets[i].sequence_number;
            &&& v.pending.contains_key(q)
            &&& v.pending[q] + 150 <= now_ms
            &&& v.index[q] == i
        }),
{
}

/// The sequence number of the probe that a reply with acknowledgement
/// number `ack` answers: one less, wrapping around at zero.
pub open spec fn answered_sequence(ack: u32) -> u32 {
    if ack == 0 {
        u32::MAX
    } else {
        (ack - 1) as u32
    }
}


/// A reply with acknowledgement number `ack` answers the probe whose
/// sequence number is one less, counting modulo 2^32: adding one to the
/// answered sequence number (wrapping) gives `ack` back, and it is the only
/// 32-bit sequence number that does.
pub proof fn lemma_answered_sequence_is_one_less(ack: u32, sequence: u32)
    ensures
        (answered_sequence(ack) + 1) % 0x1_0000_0000 == ack,
        (sequence + 1) % 0x1_0000_0000 == ack <==> answered_sequence(ack) == sequence,
{
}

/// A reply to the probe of the target at `i`, whose acknowledgement number
/// is that probe's sequence number plus one (wrapping), whatever that
/// sequence number is: with SYN and ACK it marks the target open; with RST
/// and without SYN it marks it closed; either way the probe is no longer
/// unanswered, and no other target changes.
pub proof fn lemma_reply_to_probe_decides_its_target(v: ScannerView, i: int, acknowledgement: u32, flags: u8)
    requires
        v.wf(),
        0 <= i < v.targets.len(),
        v.index[v.targets[i].sequence_number] == i,
        (v.targets[i].sequence_number + 1) % 0x1_0000_0000 == acknowledgement,
    ensures
        ({
            let w = after_reply(v, answered_sequence(acknowledgement), flags);
            &&& flags & TCP_FLAG_SYN != 0 && flags & TCP_FLAG_ACK != 0 ==> w.targets[i].state
                == ScanState::Open
            &&& flags & TCP_FLAG_RST != 0 && flags & TCP_FLAG_SYN == 0 ==> w.targets[i].state
                == ScanState::Closed
            &&& !w.pending.contains_key(v.targets[i].sequence_number)
            &&& w.wf()
            &&& forall|j: int| 0 <= j < v.targets.len() && j != i ==> #[trigger] w.targets[j] == v.targets[j]
        }),
{
    lemma_answered_sequence_is_one_less(acknowledgement, v.targets[i].sequence_number);
    lemma_reply_decides_target(v, i, acknowledgement, flags);
}

/// A reply with SYN and ACK whose acknowledgement number is one more
/// than a target's sequence number marks that target open; a reply with
/// RST and without SYN marks it closed. Either way its probe is no longer
/// unanswered, and no other target changes.
pub proof fn lemma_reply_decides_target(v: ScannerView, i: int, acknowledgement: u32, flags: u8)
    requires
        v.wf(),
        0 <= i < v.targets.len(),
        v.index[v.targets[i].sequence_number] == i,
        answered_sequence(acknowledgement) == v.targets[i].sequence_number,
    ensures
        ({
            let w = after_reply(v, answered_sequence(acknowledgement), flags);
            let s = v.targets[i].sequence_number;
            &&& flags & TCP_FLAG_SYN != 0 && flags & TCP_FLAG_ACK != 0 ==> w.targets[i].state
                == ScanState::Open
            &&& flags & TCP_FLAG_RST != 0 && flags & TCP_FLAG_SYN == 0 ==> w.targets[i].state
                == ScanState::Closed
            &&& !w.pending.contains_key(s)
            &&& w.wf()
            &&& forall|j: int| 0 <= j < v.targets.len() && j != i ==> #[trigger] w.targets[j] == v.targets[j]
        }),
{
    let s = v.targets[i].sequence_number;
    assert(v.index.contains_key(s));
    let w = after_reply(v, s, flags);
    assert(w.pending.dom().subset_of(v.pending.dom()));
    vstd::set_lib::lemma_len_subset(w.pending.dom(), v.pending.dom());
    assert forall|j: int| 0 <= j < w.targets.len() implies w.targets[j].sequence_number
        == v.targets[j].sequence_number by {}
}

/// Once every target has been probed (and so once the scan has stopped
/// running), no target is still waiting for its probe.
pub proof fn lemma_probed_targets_not_waiting(v: ScannerView)
    requires
        v.wf(),
        v.next_to_send == v.targets.len(),
    ensures
        forall|i: int| 0 <= i < v.targets.len() ==> #[trigger] v.targets[i].state != ScanState::Waiting,
{
}

impl<S> View for Scanner<S> {
    type V = ScannerView;

    closed spec fn view(&self) -> ScannerView {
        ScannerView {
            next_to_send: self.next_to_send as int,
            targets: self.targets@,
            index: self.index@,
            pending: self.pending@,
        }
    }
}

impl<S> Scanner<S> {
    /// The sender handed to `new`.
    pub closed spec fn spec_sender(&self) -> S {
        self.sender
    }

    /// A scanner with no target, sending through `sender`.
    pub fn new(sender: S) -> (s: Self)
        ensures
            s@.wf(),
            s.spec_sender() == sender,
            s@.next_to_send == 0,
            s@.targets == Seq::<ScanTarget>::empty(),
            s@.index == Map::<u32, usize>::empty(),
            s@.pending == Map::<u32, u64>::empty(),
    {
        Self {
            sender,
            next_to_send: 0,
            targets: Vec::new(),
            index: HashMap::new(),
            pending: HashMap::new(),
        }
    }

    /// The sender handed to `new`.
    pub fn sender(&self) -> (s: &S)
        ensures
            *s == self.spec_sender(),
    {
        &self.sender
    }

    /// The targets, in the order they were added.
    pub fn targets(&self) -> (t: &Vec<ScanTarget>)
        ensures
            t@ == self@.targets,
    {
        &self.targets
    }

    /// The source, destination and sequence number of the next probe to
    /// send: that of the next target, when one is left to probe and fewer
    /// than `WINDOW_SIZE` probes are unanswered; otherwise `None`.
    pub fn next_probe(&self) -> (p: Option<(SocketAddress, SocketAddress, u32)>)
        requires
            self@.wf(),
        ensures
            p is Some <==> (self@.next_to_send < self@.targets.len() && self@.pending.len()
                < WINDOW_SIZE),
            p matches Some(q) ==> ({
                let t = self@.targets[self@.next_to_send];
                q == (t.source, t.destination, t.sequence_number)
            }),
    {
        if self.next_to_send < self.targets.len() && self.pending.len() < WINDOW_SIZE {
            let t = self.targets[self.next_to_send];
            Some((t.source, t.destination, t.sequence_number))
        } else {
            None
        }
    }

    /// Takes in the outcome `outcome` of sending, once, the probe that
    /// `next_probe` gave, as `after_send` says; `sent_at_ms` is when it
    /// went out (read only when it was sent).
    pub fn record_send(&mut self, outcome: SendOutcome, sent_at_ms: u64)
        requires
            old(self)@.wf(),
            old(self)@.next_to_send < old(self)@.targets.len(),
            old(self)@.pending.len() < WINDOW_SIZE,
        ensures
            final(self)@.wf(),
            final(self).spec_sender() == old(self).spec_sender(),
            final(self)@ == after_send(old(self)@, outcome, sent_at_ms),
    {
        let index = self.next_to_send;
        let target = self.targets[index];
        match outcome {
            SendOutcome::Sent => {
                let mut updated = target;
                updated.state = ScanState::Pending;
                self.targets.set(index, updated);
                self.pending.insert(target.sequence_number, sent_at_ms);
                self.next_to_send = index + 1;
            },
            SendOutcome::WouldBlock => {},
            SendOutcome::Failed => {
                let mut updated = target;
                updated.state = ScanState::Filtered;
                self.targets.set(index, updated);
                self.next_to_send = index + 1;
            },
        }
        proof {
            let v = self@;
            let o = old(self)@;
            assert(v.targets.len() == self.targets.len());
            assert forall|i: int| 0 <= i < v.targets.len() implies v.targets[i].sequence_number
                == o.targets[i].sequence_number by {}
            assert(o.index.contains_key(o.targets[index as int].sequence_number));
            assert(v.pending.dom().finite());
            if outcome == SendOutcome::Sent {
                assert(v.pending.len() <= WINDOW_SIZE) by {
                    if o.pending.contains_key(target.sequence_number) {
                        assert(v.pending.dom() =~= o.pending.dom());
                    } else {
                        assert(v.pending.dom() =~= o.pending.dom().insert(target.sequence_number));
                    }
                }
            }
            assert(v =~= after_send(o, outcome, sent_at_ms));
        }
    }

    /// Adds `target` after the others; its sequence number now leads to it.
    pub fn add_target(&mut self, target: ScanTarget)
        requires
            old(self)@.wf(),
        ensures
            final(self)@.wf(),
            final(self).spec_sender() == old(self).spec_sender(),
            final(self)@ == (ScannerView {
                targets: old(self)@.targets.push(target),
                index: old(self)@.index.insert(
                    target.sequence_number,
                    old(self)@.targets.len() as usize,
                ),
                ..old(self)@
            }),
            final(self)@.index[target.sequence_number] == old(self)@.targets.len(),
            final(self)@.targets[final(self)@.index[target.sequence_number] as int] == target,
    {
        let index = self.targets.len();
        let sequence = target.sequence_number;
        self.targets.push(target);
        self.index.insert(sequence, index);
        proof {
            let v = self@;
            assert(v.targets.len() == self.targets.len());
            assert forall|i: int| 0 <= i < v.next_to_send implies #[trigger] v.targets[i].state
                != ScanState::Waiting by {
                assert(v.targets[i] == old(self)@.targets[i]);
            }
            assert forall|i: int| 0 <= i < v.targets.len() implies v.index.contains_key(
                #[trigger] v.targets[i].sequence_number,
            ) by {
                if i < v.targets.len() - 1 {
                    assert(old(self)@.index.contains_key(old(self)@.targets[i].sequence_number));
                }
            }
        }
    }

    /// Takes in the reply with TCP header `tcp` to the probe with sequence
    /// number `sequence`, as `after_reply` says.
    pub fn update_state(&mut self, sequence: u32, tcp: &TcpHeader)
        requires
            old(self)@.wf(),
        ensures
            final(self)@.wf(),
            final(self).spec_sender() == old(self).spec_sender(),
            final(self)@ == after_reply(old(self)@, sequence, tcp.flags),
    {
        let flags = tcp.flags;
        let target_index = match self.index.get(&sequence) {
            Some(i) => *i,
            None => {
                return;
            },
        };
        if flags & TCP_FLAG_SYN != 0 && flags & TCP_FLAG_ACK != 0 {
            let mut target = self.targets[target_index];
            target.state = ScanState::Open;
            self.targets.set(target_index, target);
        } else if flags & TCP_FLAG_RST != 0 {
            let mut target = self.targets[target_index];
            target.state = ScanState::Closed;
            self.targets.set(target_index, target);
        }
        self.pending.remove(&sequence);
        proof {
            let v = self@;
            let o = old(self)@;
            assert(v.targets.len() == o.targets.len());
            assert forall|i: int| 0 <= i < v.targets.len() implies v.targets[i].sequence_number
                == o.targets[i].sequence_number by {}
            assert(v.pending.dom().finite());
            assert(v.pending.len() <= o.pending.len()) by {
                if o.pending.contains_key(sequence) {
                    assert(v.pending.len() == o.pending.len() - 1);
                } else {
                    assert(v.pending == o.pending);
                }
            }
            assert(v =~= after_reply(o, sequence, flags));
        }
    }

    /// Whether some target is still to be probed or some probe is still
    /// unanswered.
    pub fn is_running(&self) -> (running: bool)
        requires
            self@.wf(),
        ensures
            running == (self@.next_to_send < self@.targets.len() || !self@.pending.is_empty()),
    {
        self.next_to_send < self.targets.len() || !self.pending.is_empty()
    }
    /// Marks filtered the target of each unanswered probe that has waited at
    /// least `TIMEOUT_MS` at `now_ms`, and stops waiting for those probes.
    pub fn check_timeouts(&mut self, now_ms: u64)
        requires
            old(self)@.wf(),
        ensures
            final(self)@.wf(),
            final(self).spec_sender() == old(self).spec_sender(),
            final(self)@.next_to_send == old(self)@.next_to_send,
            final(self)@.index == old(self)@.index,
            final(self)@.pending == old(self)@.pending.remove_keys(
                expired_sequences(old(self)@.pending, now_ms),
            ),
            forall|s: u32|
                #[trigger] final(self)@.pending.contains_key(s) ==> !is_expired(
                    final(self)@.pending[s],
                    now_ms,
                ),
            final(self)@.targets.len() == old(self)@.targets.len(),
            forall|i: int|
                0 <= i < old(self)@.targets.len() ==> #[trigger] final(self)@.targets[i] == if target_timed_out(
                    old(self)@,
                    i,
                    now_ms,
                ) {
                    ScanTarget { state: ScanState::Filtered, ..old(self)@.targets[i] }
                } else {
                    old(self)@.targets[i]
                },
    {
        let ghost pending0 = self.pending@;
        let mut expired: Vec<u32> = Vec::new();
        let ghost all = vstd::std_specs::hash::spec_hash_map_iter(&self.pending).remaining();
        let ghost mut seen: int = 0;
        for entry in it: self.pending.iter()
            invariant
                pending0 == self.pending@,
                all == vstd::std_specs::hash::spec_hash_map_iter(&self.pending).remaining(),
                it.seq() == all,
                seen == it.index(),
                forall|k: int|
                    0 <= k < expired@.len() ==> expired_sequences(pending0, now_ms).contains(
                        #[trigger] expired@[k],
                    ),
                forall|j: int|
                    0 <= j < it.index() && is_expired(*it.seq()[j].1, now_ms) ==> expired@.contains(
                        *it.seq()[j].0,
                    ),
        {
            let (sequence, started_at) = entry;
            let ghost before = expired@;
            proof {
                assert(it.seq()[it.index()] == entry);
            }
            if now_ms.saturating_sub(*started_at) >= TIMEOUT_MS {
                expired.push(*sequence);
            }
            proof {
                assert forall|x: u32| before.contains(x) implies expired@.contains(x) by {
                    let k = choose|k: int| 0 <= k < before.len() && before[k] == x;
                    assert(expired@[k] == x);
                }
                if is_expired(*started_at, now_ms) {
                    assert(expired@[expired@.len() - 1] == *sequence);
                }
                seen = seen + 1;
            }
        }
        let ghost expired_set = expired_sequences(pending0, now_ms);
        proof {
            assert(expired@.to_set() =~= expired_set) by {
                assert forall|x: u32| expired_set.contains(x) implies expired@.to_set().contains(x) by {
                    assert(all.contains((&x, &pending0[x])));
                    let j = choose|j: int| 0 <= j < all.len() && all[j] == (&x, &pending0[x]);
                    assert(j < seen);
                }
                assert forall|x: u32| expired@.to_set().contains(x) implies expired_set.contains(x) by {
                    let k = choose|k: int| 0 <= k < expired@.len() && expired@[k] == x;
                }
            }
        }
        let ghost targets0 = self.targets@;
        let n = expired.len();
        let mut k: usize = 0;
        while k < n
            invariant
                n == expired@.len(),
                k <= n,
                self.sender == old(self).sender,
                self.next_to_send == old(self).next_to_send,
                self.index@ == old(self).index@,
                targets0 == old(self).targets@,
                pending0 == old(self).pending@,
                old(self)@.wf(),
                forall|j: int| 0 <= j < n ==> expired_set.contains(#[trigger] expired@[j]),
                self.pending@ == pending0.remove_keys(expired@.take(k as int).to_set()),
                self.targets@.len() == targets0.len(),
                forall|i: int|
                    0 <= i < targets0.len() ==> #[trigger] self.targets@[i] == if expired@.take(
                        k as int,
                    ).contains(targets0[i].sequence_number) && self.index@[targets0[i].sequence_number]
                        == i {
                        ScanTarget { state: ScanState::Filtered, ..targets0[i] }
                    } else {
                        targets0[i]
                    },
            decreases n - k,
        {
            let sequence = expired[k];
            let ghost e0 = expired@.take(k as int);
            let ghost e1 = expired@.take(k + 1);
            let ghost targets_before = self.targets@;
            let ghost pending_before = self.pending@;
            proof {
                assert(e1 == e0.push(sequence));
                assert forall|x: u32| e1.contains(x) <==> (e0.contains(x) || x == sequence) by {
                    if e1.contains(x) && x != sequence {
                        let j = choose|j: int| 0 <= j < e1.len() && e1[j] == x;
                        assert(e0[j] == x);
                    }
                    if e0.contains(x) {
                        let j = choose|j: int| 0 <= j < e0.len() && e0[j] == x;
                        assert(e1[j] == x);
                    }
                    if x == sequence {
                        assert(e1[k as int] == x);
                    }
                }
                assert(e1.to_set() =~= e0.to_set().insert(sequence));
            }
            match self.index.get(&sequence) {
                Some(i) => {
                    let i = *i;
                    let mut target = self.targets[i];
                    target.state = ScanState::Filtered;
                    self.targets.set(i, target);
                    proof {
                        assert(targets0[i as int].sequence_number == sequence);
                    }
                },
                None => {},
            }
            self.pending.remove(&sequence);
            proof {
                assert(self.pending@ =~= pending0.remove_keys(e1.to_set()));
                assert forall|i: int| 0 <= i < targets0.len() implies #[trigger] self.targets@[i]
                    == if e1.contains(targets0[i].sequence_number) && self.index@[targets0[i].sequence_number]
                    == i {
                    ScanTarget { state: ScanState::Filtered, ..targets0[i] }
                } else {
                    targets0[i]
                } by {
                    let si = targets0[i].sequence_number;
                    assert(self.index@.contains_key(si));
                    if self.index@.contains_key(sequence) && self.index@[sequence] == i {
                        assert(si == sequence);
                    }
                }
            }
            k += 1;
        }
        proof {
            assert(expired@.take(n as int) == expired@);
            assert(self.pending@ =~= pending0.remove_keys(expired_set));
            assert forall|i: int| 0 <= i < targets0.len() implies (expired@.contains(
                targets0[i].sequence_number,
            ) && self.index@[targets0[i].sequence_number] == i) == target_timed_out(
                old(self)@,
                i,
                now_ms,
            ) by {
                assert(expired@.contains(targets0[i].sequence_number) == expired@.to_set().contains(
                    targets0[i].sequence_number,
                ));
            }
            let v = self@;
            assert(v.pending.dom().finite());
            assert(v.pending.dom().subset_of(pending0.dom()));
            vstd::set_lib::lemma_len_subset(v.pending.dom(), pending0.dom());
            assert forall|i: int| 0 <= i < v.targets.len() implies v.targets[i].sequence_number
                == targets0[i].sequence_number by {}
        }
    }
    /// Sends probes to the targets not probed yet, in order, through `send`
    /// (given the sender), while fewer than `WINDOW_SIZE` probes are
    /// unanswered: each probe that `next_probe` gives is sent once, and the
    /// outcome is taken in as `record_send` does. A target whose probe was
    /// sent becomes pending, with the time that `clock` gives just after the
    /// send; one whose probe failed becomes filtered. Stops at the first
    /// `WouldBlock`, leaving that target for later.
    pub fn send_pack<F: Fn(&S, SocketAddress, SocketAddress, u32) -> SendOutcome, C: Fn() -> u64>(
        &mut self,
        send: F,
        clock: C,
    )
        requires
            old(self)@.wf(),
            forall|s: &S, a: SocketAddress, b: SocketAddress, q: u32|
                call_requires(send, (s, a, b, q)),
            call_requires(clock, ()),
        ensures
            final(self)@.wf(),
            final(self).spec_sender() == old(self).spec_sender(),
            final(self)@.index == old(self)@.index,
            old(self)@.next_to_send <= final(self)@.next_to_send,
            final(self)@.targets.len() == old(self)@.targets.len(),
            forall|i: int|
                0 <= i < old(self)@.targets.len() && !(old(self)@.next_to_send <= i
                    < final(self)@.next_to_send) ==> #[trigger] final(self)@.targets[i] == old(
                    self,
                )@.targets[i],
            forall|i: int|
                old(self)@.next_to_send <= i < final(self)@.next_to_send ==> sent_or_failed(
                    send,
                    old(self).spec_sender(),
                    old(self)@.targets[i],
                    #[trigger] final(self)@.targets[i],
                ),
            forall|s: u32|
                #[trigger] final(self)@.pending.contains_key(s) <==> (old(self)@.pending.contains_key(s)
                    || newly_sent(final(self)@, old(self)@.next_to_send, final(self)@.next_to_send, s)),
            forall|s: u32|
                #[trigger] final(self)@.pending.contains_key(s) && !newly_sent(
                    final(self)@,
                    old(self)@.next_to_send,
                    final(self)@.next_to_send,
                    s,
                ) ==> final(self)@.pending[s] == old(self)@.pending[s],
            forall|s: u32|
                newly_sent(final(self)@, old(self)@.next_to_send, final(self)@.next_to_send, s)
                    ==> call_ensures(clock, (), #[trigger] final(self)@.pending[s]),
            ({
                let v = final(self)@;
                let t = v.targets[v.next_to_send];
                ||| v.next_to_send == v.targets.len()
                ||| v.pending.len() >= WINDOW_SIZE
                ||| call_ensures(
                    send,
                    (&old(self).spec_sender(), t.source, t.destination, t.sequence_number),
                    SendOutcome::WouldBlock,
                )
            }),
    {
        let ghost o = self@;
        loop
            invariant
                self@.wf(),
                self.sender == old(self).sender,
                o == old(self)@,
                forall|s: &S, a: SocketAddress, b: SocketAddress, q: u32|
                    call_requires(send, (s, a, b, q)),
                self@.index == o.index,
                o.next_to_send <= self@.next_to_send,
                self@.targets.len() == o.targets.len(),
                forall|i: int|
                    0 <= i < o.targets.len() && !(o.next_to_send <= i < self@.next_to_send)
                        ==> #[trigger] self@.targets[i] == o.targets[i],
                forall|i: int|
                    o.next_to_send <= i < self@.next_to_send ==> sent_or_failed(
                        send,
                        old(self).sender,
                        o.targets[i],
                        #[trigger] self@.targets[i],
                    ),
                forall|s: u32|
                    #[trigger] self@.pending.contains_key(s) <==> (o.pending.contains_key(s)
                        || newly_sent(self@, o.next_to_send, self@.next_to_send, s)),
                call_requires(clock, ()),
                forall|s: u32|
                    #[trigger] self@.pending.contains_key(s) && !newly_sent(
                        self@,
                        o.next_to_send,
                        self@.next_to_send,
                        s,
                    ) ==> self@.pending[s] == o.pending[s],
                forall|s: u32|
                    newly_sent(self@, o.next_to_send, self@.next_to_send, s) ==> call_ensures(
                        clock,
                        (),
                        #[trigger] self@.pending[s],
                    ),
            ensures
                ({
                    let v = self@;
                    let t = v.targets[v.next_to_send];
                    ||| v.next_to_send == v.targets.len()
                    ||| v.pending.len() >= WINDOW_SIZE
                    ||| call_ensures(
                        send,
                        (&old(self).sender, t.source, t.destination, t.sequence_number),
                        SendOutcome::WouldBlock,
                    )
                }),
            decreases self.targets.len() - self.next_to_send,
        {
            let probe = self.next_probe();
            let (source, destination, sequence) = match probe {
                Some(p) => p,
                None => {
                    break;
                },
            };
            let outcome = send(&self.sender, source, destination, sequence);
            let ghost before = self@;
            let ghost index = before.next_to_send;
            let ghost target = before.targets[index];
            match outcome {
                SendOutcome::Sent => {
                    let sent_at = clock();
                    self.record_send(outcome, sent_at);
                },
                SendOutcome::WouldBlock => {
                    break;
                },
                SendOutcome::Failed => {
                    self.record_send(outcome, 0);
                },
            }
            proof {
                let v = self@;
                assert(target == o.targets[index]);
                assert forall|q: u32| newly_sent(v, o.next_to_send, v.next_to_send, q) <==> (
                newly_sent(before, o.next_to_send, before.next_to_send, q) || (outcome
                    == SendOutcome::Sent && q == target.sequence_number)) by {
                    if newly_sent(v, o.next_to_send, v.next_to_send, q) {
                        let i = choose|i: int|
                            o.next_to_send <= i < v.next_to_send && #[trigger] v.targets[i].sequence_number
                                == q && v.targets[i].state == ScanState::Pending;
                        if i < index {
                            assert(before.targets[i] == v.targets[i]);
                        }
                    }
                    if newly_sent(before, o.next_to_send, before.next_to_send, q) {
                        let i = choose|i: int|
                            o.next_to_send <= i < before.next_to_send
                                && #[trigger] before.targets[i].sequence_number == q
                                && before.targets[i].state == ScanState::Pending;
                        assert(v.targets[i] == before.targets[i]);
                    }
                    if outcome == SendOutcome::Sent && q == target.sequence_number {
                        assert(v.targets[index].sequence_number == q);
                    }
                }
            }
        }
    }
    /// Takes in the received bytes `buf`: when they hold an IPv4 header and
    /// a TCP header, the reply counts for the probe whose sequence number
    /// is one less than its acknowledgement number, as `after_reply` says;
    /// otherwise nothing changes.
    pub fn handle_packet(&mut self, buf: &[u8])
        requires
            old(self)@.wf(),
            buf@.len() >= IP_HEADER_LENGTH ==> (buf@[0] & 0x0f) * 4 <= buf@.len(),
        ensures
            final(self)@.wf(),
            final(self).spec_sender() == old(self).spec_sender(),
            final(self)@ == match parsed_reply(buf@) {
                None => old(self)@,
                Some((_, tcp)) => after_reply(
                    old(self)@,
                    answered_sequence(tcp.acknowledgement),
                    tcp.flags,
                ),
            },
    {
        let tcp = match parse_packet(buf) {
            Some((_, tcp)) => tcp,
            None => {
                return;
            },
        };
        let sequence = tcp.acknowledgement.wrapping_sub(1);
        self.update_state(sequence, &tcp);
    }
}

} // verus!
