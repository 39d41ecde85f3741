//! Interval timers, per-peer network quality tracking, and the shared clock.
//!
//! Wall-clock instants are nanosecond counts since an arbitrary process-local
//! origin; the caller samples its monotonic clock and passes the reading in.
//! Subtractions of instants clamp at zero, as the standard monotonic clock
//! does for readings that cross each other.

use vstd::prelude::*;

verus! {

use crate::PlayerId;
use crate::utils::Signed;
use crate::utils::smag;
use crate::utils::spec_plus;
use crate::utils::sval;

/// An instant reading, nanoseconds from the process-local origin.
pub type Instant = u64;

/// Subtraction clamped at zero.
pub open spec fn sat_sub_spec(a: u64, b: u64) -> u64 {
    if a >= b {
        (a - b) as u64
    } else {
        0
    }
}

/// Subtraction clamped at zero, as the monotonic clock subtracts instants.
pub fn sat_sub(a: u64, b: u64) -> (r: u64)
    ensures
        r == sat_sub_spec(a, b),
{
    if a >= b {
        a - b
    } else {
        0
    }
}

/// The signed distance from `b` to `a`: positive when `a` is later.
pub open spec fn duration_since_spec(a: u64, b: u64) -> Signed {
    if a > b {
        Signed::Pos((a - b) as u64)
    } else {
        Signed::Neg((b - a) as u64)
    }
}

/// The signed distance from instant `b` to instant `a`.
pub fn duration_since(a: u64, b: u64) -> (r: Signed)
    ensures
        r == duration_since_spec(a, b),
        sval(r) == a - b,
        smag(r) <= a || smag(r) <= b,
{
    if a > b {
        Signed::Pos(a - b)
    } else {
        Signed::Neg(b - a)
    }
}

/// Fires at most once per period.  The anchor advances by exactly one period
/// per firing, so missed ticks catch up without long-term drift; the first
/// call fires immediately and anchors the timer at the reading it was given.
pub struct Interval {
    last: Option<Instant>,
    every: u64,
}

impl Interval {
    /// The configured period.
    pub closed spec fn every_spec(self) -> u64 {
        self.every
    }

    /// The stored anchor, if the timer has ever fired.
    pub closed spec fn last_spec(self) -> Option<Instant> {
        self.last
    }

    /// A timer with the given period that has never fired.
    pub fn new(every: u64) -> (r: Self)
        ensures
            r.every_spec() == every,
            r.last_spec() is None,
    {
        Interval { last: None, every }
    }

    /// Whether a full period has passed since the anchor.  Fires immediately
    /// on the first call.
    pub fn is_time(&mut self, now: Instant) -> (r: bool)
        ensures
            final(self).every_spec() == old(self).every_spec(),
            r == match old(self).last_spec() {
                None => true,
                Some(at) => sat_sub_spec(now, at) >= old(self).every_spec(),
            },
            final(self).last_spec() == match old(self).last_spec() {
                None => Some(now),
                Some(at) => if sat_sub_spec(now, at) >= old(self).every_spec() {
                    Some((at + old(self).every_spec()) as u64)
                } else {
                    Some(at)
                },
            },
    {
        match self.last {
            None => {
                self.last = Some(now);
                true
            },
            Some(at) => {
                if sat_sub(now, at) >= self.every {
                    proof {
                        if self.every > 0 {
                            assert(now >= at + self.every);
                        }
                    }
                    self.last = Some(at + self.every);
                    true
                } else {
                    false
                }
            },
        }
    }

    /// Changes the period without disturbing the anchor.
    pub fn set_every(&mut self, every: u64)
        ensures
            final(self).every_spec() == every,
            final(self).last_spec() == old(self).last_spec(),
    {
        self.every = every;
    }
}

/// The largest round-trip sample (0 for an empty list).
pub open spec fn max_rtt(s: Seq<(Instant, u64)>) -> u64
    decreases s.len(),
{
    if s.len() == 0 {
        0
    } else {
        let m = max_rtt(s.drop_last());
        if s.last().1 > m {
            s.last().1
        } else {
            m
        }
    }
}

/// The sum of the round-trip samples.
pub open spec fn sum_rtts(s: Seq<(Instant, u64)>) -> int
    decreases s.len(),
{
    if s.len() == 0 {
        0
    } else {
        sum_rtts(s.drop_last()) + s.last().1
    }
}

pub proof fn lemma_sum_rtts_bounds(s: Seq<(Instant, u64)>)
    ensures
        0 <= sum_rtts(s),
        sum_rtts(s) <= s.len() * u64::MAX,
    decreases s.len(),
{
    if s.len() > 0 {
        lemma_sum_rtts_bounds(s.drop_last());
        assert((s.len() - 1) * u64::MAX + u64::MAX == s.len() * u64::MAX) by (nonlinear_arith);
    }
}

/// The mean round trip a peer reports, once enough samples exist.
pub open spec fn rtt_avg(nq: NetworkQuality) -> Option<u64> {
    if nq.rtts_view().len() < RTT_SAMPLES_FOR_AVERAGE {
        None
    } else {
        Some((sum_rtts(nq.rtts_view()) / nq.rtts_view().len() as int) as u64)
    }
}

/// The worst round trip a peer reports, once enough samples exist.
pub open spec fn peer_worst(nq: NetworkQuality) -> Option<u64> {
    if nq.rtts_view().len() < RTT_SAMPLES_FOR_WORST {
        None
    } else {
        Some(max_rtt(nq.rtts_view()))
    }
}

/// Ping/pong bookkeeping for one peer: outstanding pings, pongs waiting to be
/// sent back, and the most recent round-trip samples.
pub struct NetworkQuality {
    rtts: Vec<(Instant, u64)>,       // (received at, round trip), oldest first
    outgoing: Vec<(u64, Instant)>,   // (ping id, sent at)
    pong_queue: Vec<(u64, Instant)>, // (ping id, received at), oldest first
    ping_interval: Interval,
}

/// How many round-trip samples are retained.
pub const RTT_SAMPLES_KEPT: usize = 10;

/// How many samples `average_rtt` needs before answering.
pub const RTT_SAMPLES_FOR_AVERAGE: usize = 3;

/// How many samples `worst_case_rtt` needs before answering.
pub const RTT_SAMPLES_FOR_WORST: usize = 5;

/// Nanoseconds between pings.
pub const PING_EVERY: u64 = 100_000_000;

impl NetworkQuality {
    /// Sample keys non-decreasing (they are receipt instants).
    pub closed spec fn wf(self) -> bool {
        forall|i: int, j: int|
            0 <= i < j < self.rtts@.len() ==> (#[trigger] self.rtts@[i]).0 <= (
            #[trigger] self.rtts@[j]).0
    }

    /// The retained round-trip samples, oldest first.
    pub closed spec fn rtts_view(self) -> Seq<(Instant, u64)> {
        self.rtts@
    }

    /// The outstanding pings: id and send instant.
    pub closed spec fn outgoing_view(self) -> Seq<(u64, Instant)> {
        self.outgoing@
    }

    /// The pings waiting to be answered: id and receipt instant.
    pub closed spec fn pong_queue_view(self) -> Seq<(u64, Instant)> {
        self.pong_queue@
    }

    /// Fresh state with no samples.
    pub fn new() -> (r: Self)
        ensures
            r.wf(),
            r.rtts_view().len() == 0,
            r.outgoing_view().len() == 0,
            r.pong_queue_view().len() == 0,
    {
        NetworkQuality {
            rtts: Vec::new(),
            outgoing: Vec::new(),
            pong_queue: Vec::new(),
            ping_interval: Interval::new(PING_EVERY),
        }
    }

    /// The mean of the retained samples, once at least
    /// `RTT_SAMPLES_FOR_AVERAGE` exist.
    pub fn average_rtt(&self) -> (r: Option<u64>)
        ensures
            r == rtt_avg(*self),
    {
        if self.rtts.len() < RTT_SAMPLES_FOR_AVERAGE {
            return None;
        }
        proof {
            lemma_sum_rtts_bounds(self.rtts@);
            assert(self.rtts@.len() * u64::MAX <= usize::MAX * (u64::MAX as int)) by (
            nonlinear_arith)
                requires
                    self.rtts@.len() <= usize::MAX,
            ;
        }
        let mut sum: u128 = 0;
        let mut i: usize = 0;
        while i < self.rtts.len()
            invariant
                i <= self.rtts@.len(),
                sum == sum_rtts(self.rtts@.take(i as int)),
                sum_rtts(self.rtts@.take(i as int)) <= i * u64::MAX,
            decreases self.rtts@.len() - i,
        {
            proof {
                assert(self.rtts@.take(i as int + 1).drop_last() =~= self.rtts@.take(i as int));
                assert((i + 1) * u64::MAX == i * u64::MAX + u64::MAX) by (nonlinear_arith);
                assert(i * u64::MAX <= usize::MAX * (u64::MAX as int)) by (nonlinear_arith)
                    requires
                        i <= usize::MAX,
                ;
            }
            sum = sum + self.rtts[i].1 as u128;
            i += 1;
        }
        proof {
            assert(self.rtts@.take(self.rtts@.len() as int) =~= self.rtts@);
            let n = self.rtts@.len() as int;
            assert(sum_rtts(self.rtts@) / n <= u64::MAX) by {
                lemma_avg_le_max(self.rtts@);
            }
        }
        let avg = sum / (self.rtts.len() as u128);
        Some(avg as u64)
    }

    /// The largest retained sample, once at least `RTT_SAMPLES_FOR_WORST`
    /// exist.
    pub fn worst_case_rtt(&self) -> (r: Option<u64>)
        ensures
            r == peer_worst(*self),
            r matches Some(m) ==> forall|i: int|
                0 <= i < self.rtts_view().len() ==> (#[trigger] self.rtts_view()[i]).1 <= m,
    {
        if self.rtts.len() < RTT_SAMPLES_FOR_WORST {
            return None;
        }
        let mut m: u64 = 0;
        let mut i: usize = 0;
        while i < self.rtts.len()
            invariant
                i <= self.rtts@.len(),
                m == max_rtt(self.rtts@.take(i as int)),
                forall|j: int| 0 <= j < i ==> (#[trigger] self.rtts@[j]).1 <= m,
            decreases self.rtts@.len() - i,
        {
            proof {
                assert(self.rtts@.take(i as int + 1).drop_last() =~= self.rtts@.take(i as int));
                assert(self.rtts@.take(i as int + 1).last() == self.rtts@[i as int]);
            }
            if self.rtts[i].1 > m {
                m = self.rtts[i].1;
            }
            i += 1;
        }
        proof {
            assert(self.rtts@.take(self.rtts@.len() as int) =~= self.rtts@);
        }
        Some(m)
    }
}

/// A ping or its reply, as carried inside clock messages.
#[derive(Clone, Copy, Debug, PartialEq, Eq, Structural)]
pub enum NetworkAnalysisMessage {
    /// A probe carrying a fresh identifier.
    Ping(u64),
    /// The echo: the probe's identifier and how long the peer sat on it,
    /// in nanoseconds.
    Pong(u64, u64),
}

/// Relies on rand::random: a value from the thread-local generator.  Nothing
/// is assumed of it.
#[verifier::external_body]
fn random_u64() -> u64 {
    rand::random::<u64>()
}

/// Relies on rand::random: a coin flip from the thread-local generator.
/// Nothing is assumed of it.
#[verifier::external_body]
fn random_bool() -> bool {
    rand::random::<bool>()
}

/// The outstanding-ping list with `id` bound to `at`, replacing any earlier
/// binding of the same id.
pub open spec fn upsert_out(s: Seq<(u64, Instant)>, id: u64, at: Instant) -> Seq<(u64, Instant)>
    decreases s.len(),
{
    if s.len() == 0 {
        seq![(id, at)]
    } else if s[0].0 == id {
        s.update(0, (id, at))
    } else {
        seq![s[0]] + upsert_out(s.skip(1), id, at)
    }
}

/// The samples that survive pruning: the newest `RTT_SAMPLES_KEPT`, and only
/// once the cap is exceeded.
pub open spec fn prune_rtts(r: Seq<(Instant, u64)>) -> Seq<(Instant, u64)> {
    if r.len() <= RTT_SAMPLES_KEPT {
        r
    } else {
        r.skip(r.len() - RTT_SAMPLES_KEPT as int)
    }
}

/// The outstanding pings that survive pruning: those sent no earlier than the
/// oldest retained sample, and only once the sample cap was exceeded.
pub open spec fn prune_out(
    out: Seq<(u64, Instant)>,
    r: Seq<(Instant, u64)>,
) -> Seq<(u64, Instant)> {
    if r.len() <= RTT_SAMPLES_KEPT {
        out
    } else {
        let cutoff = prune_rtts(r)[0].0;
        out.filter(|e: (u64, Instant)| e.1 >= cutoff)
    }
}

impl NetworkQuality {
    /// The next message owed to this peer: first any pong that is due, with
    /// the time the probe sat here; otherwise a fresh ping each ping
    /// interval.
    pub fn message(&mut self, now: Instant) -> (r: Option<NetworkAnalysisMessage>)
        requires
            old(self).wf(),
        ensures
            final(self).wf(),
            final(self).rtts_view() == old(self).rtts_view(),
            old(self).pong_queue_view().len() > 0 ==> {
                &&& r == Some(
                    NetworkAnalysisMessage::Pong(
                        old(self).pong_queue_view()[0].0,
                        sat_sub_spec(now, old(self).pong_queue_view()[0].1),
                    ),
                )
                &&& final(self).pong_queue_view() == old(self).pong_queue_view().skip(1)
                &&& final(self).outgoing_view() == old(self).outgoing_view()
            },
            old(self).pong_queue_view().len() == 0 ==> {
                &&& final(self).pong_queue_view() == old(self).pong_queue_view()
                &&& match r {
                    Some(NetworkAnalysisMessage::Ping(id)) => final(self).outgoing_view()
                        == upsert_out(old(self).outgoing_view(), id, now),
                    None => final(self).outgoing_view() == old(self).outgoing_view(),
                    _ => false,
                }
            },
    {
        if self.pong_queue.len() > 0 {
            let (id, received_at) = self.pong_queue.remove(0);
            proof {
                assert(self.pong_queue@ =~= old(self).pong_queue_view().skip(1));
            }
            return Some(NetworkAnalysisMessage::Pong(id, sat_sub(now, received_at)));
        }
        if self.ping_interval.is_time(now) {
            let id = random_u64();
            self.upsert_outgoing(id, now);
            return Some(NetworkAnalysisMessage::Ping(id));
        }
        None
    }

    /// Binds `id` to `at` in the outstanding list, replacing any earlier
    /// binding.
    fn upsert_outgoing(&mut self, id: u64, at: Instant)
        ensures
            final(self).outgoing_view() == upsert_out(old(self).outgoing_view(), id, at),
            final(self).rtts_view() == old(self).rtts_view(),
            final(self).pong_queue_view() == old(self).pong_queue_view(),
            final(self).wf() == old(self).wf(),
    {
        let ghost orig = self.outgoing@;
        let mut i: usize = 0;
        let n = self.outgoing.len();
        while i < n
            invariant
                i <= n,
                n == self.outgoing@.len(),
                *self == *old(self),
                self.outgoing@ == orig,
                forall|j: int| 0 <= j < i ==> (#[trigger] orig[j]).0 != id,
            decreases n - i,
        {
            if self.outgoing[i].0 == id {
                self.outgoing.set(i, (id, at));
                proof {
                    Self::lemma_upsert_at(orig, id, at, i as int);
                }
                return;
            }
            i += 1;
        }
        self.outgoing.push((id, at));
        proof {
            Self::lemma_upsert_absent(orig, id, at);
        }
    }

    /// Upsert at the first matching index is a positional update.
    proof fn lemma_upsert_at(s: Seq<(u64, Instant)>, id: u64, at: Instant, i: int)
        requires
            0 <= i < s.len(),
            s[i].0 == id,
            forall|j: int| 0 <= j < i ==> (#[trigger] s[j]).0 != id,
        ensures
            upsert_out(s, id, at) == s.update(i, (id, at)),
        decreases s.len(),
    {
        if s[0].0 == id {
            assert(i == 0);
        } else {
            let tl = s.skip(1);
            assert(forall|j: int| 0 <= j < i - 1 ==> tl[j] == s[j + 1]);
            Self::lemma_upsert_at(tl, id, at, i - 1);
            assert(upsert_out(s, id, at) =~= s.update(i, (id, at)));
        }
    }

    /// Upsert of an absent id appends.
    proof fn lemma_upsert_absent(s: Seq<(u64, Instant)>, id: u64, at: Instant)
        requires
            forall|j: int| 0 <= j < s.len() ==> (#[trigger] s[j]).0 != id,
        ensures
            upsert_out(s, id, at) == s.push((id, at)),
        decreases s.len(),
    {
        if s.len() > 0 {
            assert(s[0].0 != id);
            let tl = s.skip(1);
            assert(forall|j: int| 0 <= j < tl.len() ==> tl[j] == s[j + 1]);
            Self::lemma_upsert_absent(tl, id, at);
            assert(upsert_out(s, id, at) =~= s.push((id, at)));
        } else {
            assert(upsert_out(s, id, at) =~= s.push((id, at)));
        }
    }

    /// Handles a probe or an echo from the peer, pruning stale state first.
    /// A probe queues an echo stamped with its receipt instant.  An echo
    /// whose id is outstanding yields a round-trip sample: the full loop time
    /// minus the time the peer sat on the probe; an unknown id is ignored.
    pub fn receive_message(&mut self, message: NetworkAnalysisMessage, now: Instant)
        requires
            old(self).wf(),
        ensures
            final(self).wf(),
            quality_transition(*old(self), *final(self), message, now),
            message matches NetworkAnalysisMessage::Ping(d) ==> {
                &&& final(self).pong_queue_view() == old(self).pong_queue_view().push((d, now))
                &&& final(self).rtts_view() == prune_rtts(old(self).rtts_view())
                &&& final(self).outgoing_view() == prune_out(
                    old(self).outgoing_view(),
                    old(self).rtts_view(),
                )
            },
            message matches NetworkAnalysisMessage::Pong(d, rpt) ==> {
                &&& final(self).pong_queue_view() == old(self).pong_queue_view()
                &&& ({
                    let pruned_out = prune_out(old(self).outgoing_view(), old(self).rtts_view());
                    let pruned = prune_rtts(old(self).rtts_view());
                    if exists|i: int|
                        0 <= i < pruned_out.len() && (#[trigger] pruned_out[i]).0 == d {
                        exists|i: int|
                            {
                                &&& 0 <= i < pruned_out.len()
                                &&& (#[trigger] pruned_out[i]).0 == d
                                &&& final(self).outgoing_view() == pruned_out.remove(i)
                                &&& final(self).rtts_view().len() == pruned.len() + 1
                                &&& exists|k: int|
                                    0 <= k < final(self).rtts_view().len()
                                        && #[trigger] final(self).rtts_view()[k] == (
                                    now,
                                    sat_sub_spec(sat_sub_spec(now, pruned_out[i].1), rpt),
                                    )
                            }
                    } else {
                        &&& final(self).outgoing_view() == pruned_out
                        &&& final(self).rtts_view() == pruned
                    }
                })
            },
    {
        self.remove_old_data();
        match message {
            NetworkAnalysisMessage::Ping(d) => {
                self.pong_queue.push((d, now));
            },
            NetworkAnalysisMessage::Pong(d, remote_processing_time) => {
                let ghost pruned_out = self.outgoing@;
                let mut i: usize = 0;
                let n = self.outgoing.len();
                while i < n
                    invariant
                        i <= n,
                        n == self.outgoing@.len(),
                        self.wf(),
                        self.outgoing@ == pruned_out,
                        pruned_out == prune_out(
                            old(self).outgoing_view(),
                            old(self).rtts_view(),
                        ),
                        self.rtts@ == prune_rtts(old(self).rtts_view()),
                        self.pong_queue@ == old(self).pong_queue_view(),
                        message == NetworkAnalysisMessage::Pong(d, remote_processing_time),
                        forall|j: int| 0 <= j < i ==> (#[trigger] pruned_out[j]).0 != d,
                    decreases n - i,
                {
                    if self.outgoing[i].0 == d {
                        let (_, sent_at) = self.outgoing.remove(i);
                        let rtt = sat_sub(sat_sub(now, sent_at), remote_processing_time);
                        self.insert_rtt(now, rtt);
                        proof {
                            assert(pruned_out[i as int].0 == d);
                        }
                        return;
                    }
                    i += 1;
                }
            },
        }
    }

    /// Inserts a sample keyed by its receipt instant, keeping keys ordered.
    fn insert_rtt(&mut self, at: Instant, rtt: u64)
        requires
            old(self).wf(),
        ensures
            final(self).wf(),
            final(self).rtts_view().len() == old(self).rtts_view().len() + 1,
            // The new sample is inserted in order; every old sample survives.
            exists|k: int|
                0 <= k <= old(self).rtts_view().len() && final(self).rtts_view() == #[trigger] old(self).rtts_view().insert(k, (at, rtt)),
            exists|k: int|
                0 <= k < final(self).rtts_view().len() && #[trigger] final(self).rtts_view()[k]
                    == (at, rtt),
            final(self).outgoing_view() == old(self).outgoing_view(),
            final(self).pong_queue_view() == old(self).pong_queue_view(),
    {
        let ghost orig = self.rtts@;
        let mut pos = self.rtts.len();
        while pos > 0 && self.rtts[pos - 1].0 > at
            invariant
                pos <= self.rtts@.len(),
                self.rtts@ == orig,
                forall|j: int| pos <= j < orig.len() ==> (#[trigger] orig[j]).0 > at,
            decreases pos,
        {
            pos -= 1;
        }
        self.rtts.insert(pos, (at, rtt));
        proof {
            let r = self.rtts@;
            assert(r[pos as int] == (at, rtt));
            assert(self.rtts_view()[pos as int] == (at, rtt));
            assert(orig == old(self).rtts_view());
            assert(self.rtts_view() == old(self).rtts_view().insert(pos as int, (at, rtt)));
            assert(exists|k: int|
                0 <= k <= old(self).rtts_view().len() && self.rtts_view() == #[trigger] old(self).rtts_view().insert(k, (at, rtt)));
            assert forall|a: int, b: int| 0 <= a < b < r.len() implies (r[a]).0 <= (r[b]).0 by {
                if a < pos && b == pos {
                    assert(r[a] == orig[a]);
                } else if a < pos && b > pos {
                    assert(r[a] == orig[a] && r[b] == orig[b - 1]);
                } else if a == pos && b > pos {
                    assert(r[b] == orig[b - 1]);
                } else if b < pos {
                    assert(r[a] == orig[a] && r[b] == orig[b]);
                } else if a > pos {
                    assert(r[a] == orig[a - 1] && r[b] == orig[b - 1]);
                }
            }
        }
    }

    /// Keeps only the newest `RTT_SAMPLES_KEPT` samples, and drops
    /// outstanding pings sent before the oldest retained sample; both only
    /// once the cap is exceeded.
    fn remove_old_data(&mut self)
        requires
            old(self).wf(),
        ensures
            final(self).wf(),
            final(self).rtts_view() == prune_rtts(old(self).rtts_view()),
            final(self).outgoing_view() == prune_out(
                old(self).outgoing_view(),
                old(self).rtts_view(),
            ),
            final(self).pong_queue_view() == old(self).pong_queue_view(),
    {
        if self.rtts.len() <= RTT_SAMPLES_KEPT {
            return;
        }
        let ghost orig = self.rtts@;
        while self.rtts.len() > RTT_SAMPLES_KEPT
            invariant
                self.rtts@.len() >= RTT_SAMPLES_KEPT ==> self.rtts@ =~= orig.skip(
                    orig.len() - self.rtts@.len(),
                ),
                self.rtts@.len() >= RTT_SAMPLES_KEPT,
                self.wf(),
                self.outgoing@ == old(self).outgoing_view(),
                self.pong_queue@ == old(self).pong_queue_view(),
                self.rtts@.len() <= orig.len(),
            decreases self.rtts@.len(),
        {
            let ghost before = self.rtts@;
            self.rtts.remove(0);
            proof {
                assert(self.rtts@ =~= before.skip(1));
                assert(self.rtts@ =~= orig.skip(orig.len() - self.rtts@.len()));
            }
        }
        proof {
            assert(self.rtts@ =~= prune_rtts(orig));
        }
        let cutoff = self.rtts[0].0;
        let ghost out_orig = self.outgoing@;
        let mut kept: Vec<(u64, Instant)> = Vec::new();
        let mut i: usize = 0;
        while i < self.outgoing.len()
            invariant
                i <= self.outgoing@.len(),
                self.outgoing@ == out_orig,
                kept@ =~= out_orig.take(i as int).filter(
                    |e: (u64, Instant)| e.1 >= cutoff,
                ),
            decreases self.outgoing@.len() - i,
        {
            proof {
                assert(out_orig.take(i as int + 1).drop_last() =~= out_orig.take(i as int));
                assert(out_orig.take(i as int + 1).last() == out_orig[i as int]);
                reveal(Seq::filter);
            }
            let e = self.outgoing[i];
            if e.1 >= cutoff {
                kept.push(e);
            }
            i += 1;
        }
        proof {
            assert(out_orig.take(out_orig.len() as int) =~= out_orig);
        }
        self.outgoing = kept;
    }
}

/// What peers exchange to agree on a shared origin and to probe the network.
#[derive(Clone, Copy, Debug, PartialEq, Eq, Structural)]
pub enum ClockMessage {
    /// The sender's signed elapsed time since (or until) its agreed origin.
    Elapsed(Signed),
    NetworkAnalysis(NetworkAnalysisMessage),
}

/// Largest instant reading the clock accepts, about 36 years of uptime in
/// nanoseconds.
pub const NOW_LIMIT: u64 = 0x1000_0000_0000_0000;

/// Largest representable origin: a reading plus ten worst-case round trips.
pub const START_LIMIT: u64 = 0xB000_0000_0000_0000;

/// Largest drift magnitude the controller will accumulate.
pub const DRIFT_LIMIT: u64 = 0x1000_0000_0000_0000;

/// Nanoseconds between start-agreement sends while peers are unacked.
pub const SYNC_EVERY: u64 = 50_000_000;

/// Nanoseconds between heartbeat sends once every peer has acked.
pub const HEARTBEAT_EVERY: u64 = 500_000_000;

/// Nanoseconds between drift adjustments.
pub const ADJUST_EVERY: u64 = 100_000_000;

/// Origins closer than this are considered agreed.
pub const START_DEVIATION: u64 = 400_000_000;

/// Largest drift change per adjustment, one millisecond.
pub const MAX_DRIFT_STEP: u64 = 1_000_000;

/// Bias added toward nonnegative drift, a tenth of a millisecond.
pub const DRIFT_BIAS: u64 = 100_000;

/// How one probe or echo moves a peer's quality tracker: the relation the
/// tracker's own contract states, reusable where a tracker sits inside a
/// larger structure.
pub open spec fn quality_transition(
    pre: NetworkQuality,
    post: NetworkQuality,
    m: NetworkAnalysisMessage,
    now: Instant,
) -> bool {
    match m {
        NetworkAnalysisMessage::Ping(d) => {
            &&& post.pong_queue_view() == pre.pong_queue_view().push((d, now))
            &&& post.rtts_view() == prune_rtts(pre.rtts_view())
            &&& post.outgoing_view() == prune_out(pre.outgoing_view(), pre.rtts_view())
        },
        NetworkAnalysisMessage::Pong(d, rpt) => {
            &&& post.pong_queue_view() == pre.pong_queue_view()
            &&& ({
                let pruned_out = prune_out(pre.outgoing_view(), pre.rtts_view());
                let pruned = prune_rtts(pre.rtts_view());
                if exists|i: int| 0 <= i < pruned_out.len() && (#[trigger] pruned_out[i]).0 == d {
                    exists|i: int|
                        {
                            &&& 0 <= i < pruned_out.len()
                            &&& (#[trigger] pruned_out[i]).0 == d
                            &&& post.outgoing_view() == pruned_out.remove(i)
                            &&& post.rtts_view().len() == pruned.len() + 1
                            &&& exists|k: int|
                                0 <= k < post.rtts_view().len() && #[trigger] post.rtts_view()[k]
                                    == (now, sat_sub_spec(sat_sub_spec(now, pruned_out[i].1), rpt))
                        }
                } else {
                    &&& post.outgoing_view() == pruned_out
                    &&& post.rtts_view() == pruned
                }
            })
        },
    }
}

/// The origin a peer's elapsed report deduces: its report minus half the
/// round trip, subtracted from now, clamped at this process's own origin.
pub open spec fn start_candidate(amt: Signed, rtt: u64, now: Instant) -> Instant {
    let half = if rtt / 2 > NOW_LIMIT {
        NOW_LIMIT
    } else {
        rtt / 2
    };
    let te = spec_plus(amt, Signed::Neg(half));
    if sval(te) > now {
        0
    } else {
        (now - sval(te)) as u64
    }
}

/// Whether a deduced origin is adopted: always while synchronizing; once an
/// origin exists, only while it lies in the future, deviates by at least the
/// agreement threshold, and is later — the origin never moves earlier.
pub open spec fn accepts_origin(state_at: Option<Instant>, cand: Instant, now: Instant) -> bool {
    match state_at {
        None => true,
        Some(at) => at >= now && smag(duration_since_spec(at, cand)) >= START_DEVIATION && at
            <= cand,
    }
}

/// The list with the first occurrence of `id` removed.
pub open spec fn remove_first(s: Seq<PlayerId>, id: PlayerId) -> Seq<PlayerId>
    decreases s.len(),
{
    if s.len() == 0 {
        s
    } else if s[0] == id {
        s.skip(1)
    } else {
        seq![s[0]] + remove_first(s.skip(1), id)
    }
}

proof fn lemma_remove_first_at(s: Seq<PlayerId>, id: PlayerId, i: int)
    requires
        0 <= i < s.len(),
        s[i] == id,
        forall|j: int| 0 <= j < i ==> (#[trigger] s[j]) != id,
    ensures
        remove_first(s, id) == s.remove(i),
    decreases s.len(),
{
    if s[0] == id {
        assert(i == 0);
        assert(remove_first(s, id) =~= s.remove(0));
    } else {
        let tl = s.skip(1);
        assert(forall|j: int| 0 <= j < i - 1 ==> tl[j] == s[j + 1]);
        lemma_remove_first_at(tl, id, i - 1);
        assert(remove_first(s, id) =~= s.remove(i));
    }
}

proof fn lemma_remove_first_absent(s: Seq<PlayerId>, id: PlayerId)
    requires
        forall|j: int| 0 <= j < s.len() ==> (#[trigger] s[j]) != id,
    ensures
        remove_first(s, id) == s,
    decreases s.len(),
{
    if s.len() > 0 {
        assert(s[0] != id);
        let tl = s.skip(1);
        assert(forall|j: int| 0 <= j < tl.len() ==> tl[j] == s[j + 1]);
        lemma_remove_first_absent(tl, id);
        assert(remove_first(s, id) =~= s);
    }
}

/// Whether an interval timer fires at the reading `now`.
pub open spec fn interval_due(iv: Interval, now: Instant) -> bool {
    match iv.last_spec() {
        None => true,
        Some(at) => sat_sub_spec(now, at) >= iv.every_spec(),
    }
}

/// The anchor an interval timer holds after being asked at `now`.
pub open spec fn interval_next(iv: Interval, now: Instant) -> Option<Instant> {
    match iv.last_spec() {
        None => Some(now),
        Some(at) => if sat_sub_spec(now, at) >= iv.every_spec() {
            Some((at + iv.every_spec()) as u64)
        } else {
            Some(at)
        },
    }
}

/// The padding of an origin proposal: the largest clamped worst-case round
/// trip over all peers, known only once every peer reports one.
pub open spec fn proposal_rtt(remotes: Seq<(PlayerId, NetworkQuality)>) -> Option<u64>
    decreases remotes.len(),
{
    if remotes.len() == 0 {
        Some(0)
    } else {
        match proposal_rtt(remotes.drop_last()) {
            None => None,
            Some(m) => match peer_worst(remotes.last().1) {
                None => None,
                Some(w) => {
                    let wc = if w > NOW_LIMIT {
                        NOW_LIMIT
                    } else {
                        w
                    };
                    Some(
                        if wc > m {
                            wc
                        } else {
                            m
                        },
                    )
                },
            },
        }
    }
}

/// One peer without enough samples blocks the proposal.
proof fn lemma_proposal_rtt_none(remotes: Seq<(PlayerId, NetworkQuality)>, i: int)
    requires
        0 <= i < remotes.len(),
        peer_worst(remotes[i].1) is None,
    ensures
        proposal_rtt(remotes) is None,
    decreases remotes.len(),
{
    if i < remotes.len() - 1 {
        assert(remotes.drop_last()[i] == remotes[i]);
        lemma_proposal_rtt_none(remotes.drop_last(), i);
    }
}

/// The remote-elapsed records with `from`'s entry raised to `(e, now)` when
/// the report is newer than what is stored; an unknown peer is appended.
pub open spec fn upsert_latest(
    s: Seq<(PlayerId, Signed, Instant)>,
    from: PlayerId,
    e: Signed,
    now: Instant,
) -> Seq<(PlayerId, Signed, Instant)>
    decreases s.len(),
{
    if s.len() == 0 {
        seq![(from, e, now)]
    } else if s[0].0 == from {
        if crate::utils::spec_le(e, s[0].1) {
            s
        } else {
            s.update(0, (from, e, now))
        }
    } else {
        seq![s[0]] + upsert_latest(s.skip(1), from, e, now)
    }
}

/// The quality tracker of the first entry for `id`, if any.
pub open spec fn find_quality(
    remotes: Seq<(PlayerId, NetworkQuality)>,
    id: PlayerId,
) -> Option<NetworkQuality>
    decreases remotes.len(),
{
    if remotes.len() == 0 {
        None
    } else if remotes[0].0 == id {
        Some(remotes[0].1)
    } else {
        find_quality(remotes.skip(1), id)
    }
}

proof fn lemma_find_quality_at(remotes: Seq<(PlayerId, NetworkQuality)>, id: PlayerId, i: int)
    requires
        0 <= i < remotes.len(),
        remotes[i].0 == id,
        forall|j: int| 0 <= j < i ==> (#[trigger] remotes[j]).0 != id,
    ensures
        find_quality(remotes, id) == Some(remotes[i].1),
    decreases remotes.len(),
{
    if remotes[0].0 != id {
        let tl = remotes.skip(1);
        assert(forall|j: int| 0 <= j < i - 1 ==> tl[j] == remotes[j + 1]);
        lemma_find_quality_at(tl, id, i - 1);
    }
}

proof fn lemma_find_quality_absent(remotes: Seq<(PlayerId, NetworkQuality)>, id: PlayerId)
    requires
        forall|j: int| 0 <= j < remotes.len() ==> (#[trigger] remotes[j]).0 != id,
    ensures
        find_quality(remotes, id) is None,
    decreases remotes.len(),
{
    if remotes.len() > 0 {
        assert(remotes[0].0 != id);
        let tl = remotes.skip(1);
        assert(forall|j: int| 0 <= j < tl.len() ==> tl[j] == remotes[j + 1]);
        lemma_find_quality_absent(tl, id);
    }
}

/// Half the average round trip to `id`, clamped into range; zero without
/// enough samples.
pub open spec fn half_rtt_for(remotes: Seq<(PlayerId, NetworkQuality)>, id: PlayerId) -> int {
    match find_quality(remotes, id) {
        None => 0,
        Some(nq) => match rtt_avg(nq) {
            None => 0,
            Some(r) => if r / 2 > NOW_LIMIT {
                NOW_LIMIT as int
            } else {
                r as int / 2
            },
        },
    }
}

/// The sum over all recorded reports of (our elapsed minus the peer's
/// estimated elapsed now): report plus its age plus half the round trip.
pub open spec fn drift_delta_sum(
    res: Seq<(PlayerId, Signed, Instant)>,
    remotes: Seq<(PlayerId, NetworkQuality)>,
    now: Instant,
    local: int,
) -> int
    decreases res.len(),
{
    if res.len() == 0 {
        0
    } else {
        drift_delta_sum(res.drop_last(), remotes, now, local) + (local - (sval(res.last().1)
            + sat_sub_spec(now, res.last().2) + half_rtt_for(remotes, res.last().0)))
    }
}

/// Division truncating toward zero, as machine division does.
pub open spec fn trunc_div(a: int, b: int) -> int {
    if a >= 0 {
        a / b
    } else {
        -((-a) / b)
    }
}

/// A change clamped to one drift step.
pub open spec fn clamp_step(x: int) -> int {
    if x < -(MAX_DRIFT_STEP as int) {
        -(MAX_DRIFT_STEP as int)
    } else if x > MAX_DRIFT_STEP as int {
        MAX_DRIFT_STEP as int
    } else {
        x
    }
}

/// A small integer as a signed duration (nonnegative values forward).
pub open spec fn signed_of(x: int) -> Signed {
    if x >= 0 {
        Signed::Pos(x as u64)
    } else {
        Signed::Neg((-x) as u64)
    }
}

/// What one drift adjustment produces: the drift moved by the clamped,
/// bias-shifted negated mean delta, unless that would leave the representable
/// drift range.
pub open spec fn tuned_drift(
    res: Seq<(PlayerId, Signed, Instant)>,
    remotes: Seq<(PlayerId, NetworkQuality)>,
    drift: Signed,
    local: int,
    now: Instant,
) -> Signed {
    let sum = drift_delta_sum(res, remotes, now, local);
    let avg = trunc_div(sum, res.len() as int);
    let bias = if drift is Pos {
        DRIFT_BIAS as int
    } else {
        -(DRIFT_BIAS as int)
    };
    let change = clamp_step(-avg + bias);
    let cand = spec_plus(drift, signed_of(change));
    if smag(cand) <= DRIFT_LIMIT {
        cand
    } else {
        drift
    }
}

enum ClockState {
    Synchronizing,
    Start { at: Instant, unacked: Vec<PlayerId>, sync_start: Interval },
}

/// Agrees on a logical start instant with every peer, then serves a
/// monotonically non-decreasing elapsed duration measured from it.
pub struct SharedClock {
    state: ClockState,
    remotes: Vec<(PlayerId, NetworkQuality)>,
    queue: Vec<(PlayerId, ClockMessage)>,
    remote_elapsed: Vec<(PlayerId, Signed, Instant)>,
    last_elapsed: u64,
    drift: Signed,
    adjust_drift: Interval,
}

impl SharedClock {
    /// The agreed origin, once one exists.
    pub closed spec fn state_at(self) -> Option<Instant> {
        match self.state {
            ClockState::Synchronizing => None,
            ClockState::Start { at, .. } => Some(at),
        }
    }

    /// The current drift correction.
    pub closed spec fn drift_spec(self) -> Signed {
        self.drift
    }

    /// The largest elapsed value ever served.
    pub closed spec fn last_elapsed_spec(self) -> u64 {
        self.last_elapsed
    }

    /// The ids of the peers the clock talks to.
    pub closed spec fn remote_ids(self) -> Seq<PlayerId> {
        self.remotes@.map_values(|e: (PlayerId, NetworkQuality)| e.0)
    }

    /// The per-peer quality trackers.
    pub closed spec fn remotes_view(self) -> Seq<(PlayerId, NetworkQuality)> {
        self.remotes@
    }

    /// The queued outbound messages, front first.
    pub closed spec fn queue_view(self) -> Seq<(PlayerId, ClockMessage)> {
        self.queue@
    }

    /// The recorded remote elapsed reports: peer, report, arrival instant.
    pub closed spec fn remote_elapsed_view(self) -> Seq<(PlayerId, Signed, Instant)> {
        self.remote_elapsed@
    }

    /// The peers that have not yet acknowledged the origin; `None` while
    /// synchronizing.
    pub closed spec fn unacked_view(self) -> Option<Seq<PlayerId>> {
        match self.state {
            ClockState::Synchronizing => None,
            ClockState::Start { unacked, .. } => Some(unacked@),
        }
    }

    /// The start-agreement send timer; `None` while synchronizing.
    pub closed spec fn sync_interval_view(self) -> Option<Interval> {
        match self.state {
            ClockState::Synchronizing => None,
            ClockState::Start { sync_start, .. } => Some(sync_start),
        }
    }

    /// The drift-adjustment timer.
    pub closed spec fn adjust_interval_view(self) -> Interval {
        self.adjust_drift
    }

    /// Origin and drift within range, per-peer state well formed, recorded
    /// remote elapsed values sane.
    pub closed spec fn wf(self) -> bool {
        &&& match self.state {
            ClockState::Synchronizing => true,
            ClockState::Start { at, .. } => at <= START_LIMIT,
        }
        &&& smag(self.drift) <= DRIFT_LIMIT
        &&& self.last_elapsed <= START_LIMIT + DRIFT_LIMIT
        &&& forall|i: int|
            0 <= i < self.remote_elapsed@.len() ==> smag((#[trigger] self.remote_elapsed@[i]).1)
                <= NOW_LIMIT && self.remote_elapsed@[i].2 <= NOW_LIMIT
        &&& forall|i: int| 0 <= i < self.remotes@.len() ==> (#[trigger] self.remotes@[i]).1.wf()
    }

    /// A clock that talks to the given peers, not yet synchronized.
    pub fn among_remotes(remotes: &Vec<PlayerId>) -> (r: Self)
        ensures
            r.wf(),
            r.state_at() is None,
            r.last_elapsed_spec() == 0,
            r.drift_spec() == Signed::Pos(0u64),
            r.remote_ids() =~= remotes@,
    {
        let mut peer_state: Vec<(PlayerId, NetworkQuality)> = Vec::new();
        let mut i: usize = 0;
        while i < remotes.len()
            invariant
                i <= remotes@.len(),
                peer_state@.len() == i,
                forall|j: int|
                    0 <= j < i ==> (#[trigger] peer_state@[j]).0 == remotes@[j] && peer_state@[
                        j
                    ].1.wf(),
            decreases remotes@.len() - i,
        {
            peer_state.push((remotes[i], NetworkQuality::new()));
            i += 1;
        }
        proof {
            assert(peer_state@.map_values(|e: (PlayerId, NetworkQuality)| e.0) =~= remotes@);
        }
        SharedClock {
            state: ClockState::Synchronizing,
            remotes: peer_state,
            queue: Vec::new(),
            remote_elapsed: Vec::new(),
            last_elapsed: 0,
            drift: Signed::Pos(0),
            adjust_drift: Interval::new(ADJUST_EVERY),
        }
    }

    /// The signed time since (positive) or until (negative) the agreed
    /// origin, drift included; `None` while synchronizing.
    pub fn signed_elapsed(&self, now: Instant) -> (r: Option<Signed>)
        requires
            self.wf(),
            now <= NOW_LIMIT,
        ensures
            r == match self.state_at() {
                None => None::<Signed>,
                Some(at) => Some(spec_plus(duration_since_spec(now, at), self.drift_spec())),
            },
    {
        match &self.state {
            ClockState::Synchronizing => None,
            ClockState::Start { at, .. } => {
                let only_local = duration_since(now, *at);
                Some(only_local.plus(self.drift))
            },
        }
    }

    /// What `elapsed` serves at the reading `now`: the nonnegative signed
    /// elapsed clamped against everything served before, `None` while
    /// synchronizing or before the origin.
    pub open spec fn serves(self, now: Instant) -> Option<u64> {
        match self.state_at() {
            None => None,
            Some(at) => {
                let correct = spec_plus(duration_since_spec(now, at), self.drift_spec());
                match correct {
                    Signed::Pos(c) => Some(
                        if c >= self.last_elapsed_spec() {
                            c
                        } else {
                            self.last_elapsed_spec()
                        },
                    ),
                    Signed::Neg(_) => None,
                }
            },
        }
    }

    /// The served elapsed duration: the signed elapsed when it is
    /// nonnegative, clamped against everything served before, so the result
    /// never decreases from one call to the next.
    pub fn elapsed(&mut self, now: Instant) -> (r: Option<u64>)
        requires
            old(self).wf(),
            now <= NOW_LIMIT,
        ensures
            final(self).wf(),
            final(self).state_at() == old(self).state_at(),
            final(self).drift_spec() == old(self).drift_spec(),
            final(self).remote_ids() == old(self).remote_ids(),
            final(self).last_elapsed_spec() >= old(self).last_elapsed_spec(),
            r == old(self).serves(now),
            final(self).serves(now) == old(self).serves(now),
            r matches Some(v) ==> v == final(self).last_elapsed_spec() && v >= old(self).last_elapsed_spec() && v <= START_LIMIT + DRIFT_LIMIT,
            r matches Some(v) ==> match old(self).state_at() {
                Some(at) => {
                    let correct = spec_plus(duration_since_spec(now, at), old(self).drift_spec());
                    correct matches Signed::Pos(c) && v == if c >= old(self).last_elapsed_spec() {
                        c
                    } else {
                        old(self).last_elapsed_spec()
                    }
                },
                None => false,
            },
            r is None ==> final(self).last_elapsed_spec() == old(self).last_elapsed_spec(),
    {
        let correct = match self.signed_elapsed(now) {
            None => return None,
            Some(s) => match s.pos() {
                None => return None,
                Some(c) => c,
            },
        };
        proof {
            let a = choose|a: u64| self.state_at() == Some(a);
            crate::utils::lemma_plus_sval(duration_since_spec(now, a), self.drift);
            assert(correct <= START_LIMIT + DRIFT_LIMIT);
        }
        let never_decrease = if correct >= self.last_elapsed {
            correct
        } else {
            self.last_elapsed
        };
        self.last_elapsed = never_decrease;
        Some(never_decrease)
    }

    /// The current drift correction.
    pub fn drift(&self) -> (r: Signed)
        ensures
            r == self.drift_spec(),
    {
        self.drift
    }

    /// Adopts `new_at` as the origin.  A proposal is refused when the old
    /// origin has already passed, when the two differ by less than the
    /// agreement deviation, or when the proposal is earlier: an accepted
    /// origin never moves backward.
    fn update_start_time(&mut self, new_at: Instant, now: Instant) -> (r: bool)
        requires
            old(self).wf(),
            new_at <= START_LIMIT,
            now <= NOW_LIMIT,
        ensures
            final(self).wf(),
            r == match old(self).state_at() {
                None => true,
                Some(at) => at >= now && smag(duration_since_spec(at, new_at)) >= START_DEVIATION
                    && at <= new_at,
            },
            r ==> final(self).state_at() == Some(new_at),
            // Adoption re-arms the agreement: every peer becomes unacked and
            // the send timer restarts at the fast period.
            r ==> final(self).unacked_view() == Some(old(self).remote_ids()),
            r ==> (final(self).sync_interval_view() matches Some(iv) && iv.every_spec()
                == SYNC_EVERY && iv.last_spec() is None),
            r ==> final(self).queue_view() == old(self).queue_view() && final(self).remote_elapsed_view() == old(self).remote_elapsed_view(),
            !r ==> *final(self) == *old(self),
            r ==> (old(self).state_at() matches Some(at) ==> new_at >= at),
            final(self).drift_spec() == old(self).drift_spec(),
            final(self).last_elapsed_spec() == old(self).last_elapsed_spec(),
            final(self).remote_ids() == old(self).remote_ids(),
            final(self).remotes@ == old(self).remotes@,
    {
        match &self.state {
            ClockState::Synchronizing => {},
            ClockState::Start { at, .. } => {
                if *at < now {
                    return false;
                }
                if duration_since(*at, new_at).abs() < START_DEVIATION {
                    return false;
                }
                if *at > new_at {
                    return false;
                }
            },
        }
        let mut unacked: Vec<PlayerId> = Vec::new();
        let mut i: usize = 0;
        while i < self.remotes.len()
            invariant
                i <= self.remotes@.len(),
                unacked@.len() == i,
                *self == *old(self),
                forall|j: int| 0 <= j < i ==> (#[trigger] unacked@[j]) == self.remotes@[j].0,
            decreases self.remotes@.len() - i,
        {
            unacked.push(self.remotes[i].0);
            i += 1;
        }
        proof {
            assert(unacked@ =~= self.remote_ids());
        }
        self.state = ClockState::Start {
            at: new_at,
            unacked,
            sync_start: Interval::new(SYNC_EVERY),
        };
        true
    }

    /// While synchronizing, proposes an origin as soon as every peer has a
    /// worst-case round trip: the origin becomes `now` plus ten times the
    /// largest worst-case round trip.  An existing origin is left alone.
    fn propose_origin(&mut self, now: Instant)
        requires
            old(self).wf(),
            now <= NOW_LIMIT,
        ensures
            final(self).wf(),
            old(self).state_at() is Some ==> *final(self) == *old(self),
            old(self).state_at() is None && proposal_rtt(old(self).remotes_view()) is None
                ==> *final(self) == *old(self),
            proposal_rtt(old(self).remotes_view()) matches Some(w) ==> (old(self).state_at() is None ==> {
                &&& final(self).state_at() == Some((now + 10 * w) as u64)
                &&& final(self).unacked_view() == Some(old(self).remote_ids())
                &&& (final(self).sync_interval_view() matches Some(iv) && iv.every_spec()
                    == SYNC_EVERY && iv.last_spec() is None)
            }),
            final(self).drift_spec() == old(self).drift_spec(),
            final(self).last_elapsed_spec() == old(self).last_elapsed_spec(),
            final(self).remote_ids() == old(self).remote_ids(),
            final(self).remotes_view() == old(self).remotes_view(),
            final(self).queue_view() == old(self).queue_view(),
            final(self).remote_elapsed_view() == old(self).remote_elapsed_view(),
            old(self).state_at() matches Some(at) ==> final(self).state_at() == Some(at),
    {
        if !matches!(&self.state, ClockState::Synchronizing) {
            return ;
        }
        let mut worst: u64 = 0;
        let mut i: usize = 0;
        let n = self.remotes.len();
        while i < n
            invariant
                i <= n,
                n == self.remotes@.len(),
                *self == *old(self),
                self.wf(),
                worst <= NOW_LIMIT,
                proposal_rtt(self.remotes@.take(i as int)) == Some(worst),
            decreases n - i,
        {
            proof {
                assert(self.remotes@.take(i as int + 1).drop_last() =~= self.remotes@.take(
                    i as int,
                ));
                assert(self.remotes@.take(i as int + 1).last() == self.remotes@[i as int]);
            }
            match self.remotes[i].1.worst_case_rtt() {
                None => {
                    proof {
                        lemma_proposal_rtt_none(self.remotes@, i as int);
                    }
                    return ;
                },
                Some(w) => {
                    let w = if w > NOW_LIMIT {
                        NOW_LIMIT
                    } else {
                        w
                    };
                    if w > worst {
                        worst = w;
                    }
                },
            }
            i += 1;
        }
        proof {
            assert(self.remotes@.take(n as int) =~= self.remotes@);
        }
        let confident_start_in = 10 * worst;
        self.update_start_time(now + confident_start_in, now);
    }

    /// Once an origin exists and the send timer is due, emits the signed
    /// elapsed to the first unacked peer (or, once all acked, to the first
    /// of all peers as a heartbeat), queueing one copy for each remaining
    /// target; re-arms the timer at the fast or heartbeat period.  Never
    /// moves the origin.
    fn start_message(&mut self, now: Instant) -> (r: Option<(PlayerId, ClockMessage)>)
        requires
            old(self).wf(),
            now <= NOW_LIMIT,
            old(self).queue_view().len() == 0,
        ensures
            final(self).wf(),
            final(self).state_at() == old(self).state_at(),
            final(self).unacked_view() == old(self).unacked_view(),
            final(self).drift_spec() == old(self).drift_spec(),
            final(self).last_elapsed_spec() == old(self).last_elapsed_spec(),
            final(self).remote_ids() == old(self).remote_ids(),
            final(self).remotes_view() == old(self).remotes_view(),
            final(self).remote_elapsed_view() == old(self).remote_elapsed_view(),
            old(self).state_at() is None ==> r is None && *final(self) == *old(self),
            old(self).state_at() matches Some(at) ==> {
                let iv = old(self).sync_interval_view()->Some_0;
                let unacked = old(self).unacked_view()->Some_0;
                let targets = if unacked.len() == 0 {
                    old(self).remote_ids()
                } else {
                    unacked
                };
                let sig = ClockMessage::Elapsed(
                    spec_plus(duration_since_spec(now, at), old(self).drift_spec()),
                );
                if !interval_due(iv, now) {
                    r is None && *final(self) == *old(self)
                } else {
                    &&& r == if targets.len() == 0 {
                        None::<(PlayerId, ClockMessage)>
                    } else {
                        Some((targets[0], sig))
                    }
                    &&& final(self).queue_view() == if targets.len() == 0 {
                        old(self).queue_view()
                    } else {
                        targets.map_values(|t: PlayerId| (t, sig)).skip(1)
                    }
                    &&& (final(self).sync_interval_view() matches Some(iv2) && iv2.every_spec()
                        == (if unacked.len() == 0 {
                        HEARTBEAT_EVERY
                    } else {
                        SYNC_EVERY
                    }) && iv2.last_spec() == interval_next(iv, now))
                }
            },
    {
        let message = match self.signed_elapsed(now) {
            None => {
                return None;
            },
            Some(e) => ClockMessage::Elapsed(e),
        };
        let is_due = match &mut self.state {
            ClockState::Synchronizing => false,
            ClockState::Start { sync_start, .. } => sync_start.is_time(now),
        };
        if !is_due {
            return None;
        }
        let (acked_all, targets) = match &self.state {
            ClockState::Synchronizing => (false, Vec::new()),
            ClockState::Start { unacked, .. } => {
                if unacked.len() == 0 {
                    let mut all: Vec<PlayerId> = Vec::new();
                    let mut i: usize = 0;
                    while i < self.remotes.len()
                        invariant
                            i <= self.remotes@.len(),
                            all@.len() == i,
                            forall|j: int|
                                0 <= j < i ==> (#[trigger] all@[j]) == self.remotes@[j].0,
                        decreases self.remotes@.len() - i,
                    {
                        all.push(self.remotes[i].0);
                        i += 1;
                    }
                    proof {
                        assert(all@ =~= self.remote_ids());
                    }
                    (true, all)
                } else {
                    let mut some: Vec<PlayerId> = Vec::new();
                    let mut i: usize = 0;
                    while i < unacked.len()
                        invariant
                            i <= unacked@.len(),
                            some@.len() == i,
                            forall|j: int| 0 <= j < i ==> (#[trigger] some@[j]) == unacked@[j],
                        decreases unacked@.len() - i,
                    {
                        some.push(unacked[i]);
                        i += 1;
                    }
                    proof {
                        assert(some@ =~= unacked@);
                    }
                    (false, some)
                }
            },
        };
        match &mut self.state {
            ClockState::Synchronizing => {},
            ClockState::Start { sync_start, .. } => {
                if acked_all {
                    sync_start.set_every(HEARTBEAT_EVERY);
                } else {
                    sync_start.set_every(SYNC_EVERY);
                }
            },
        }
        let ghost armed = *self;
        let mut i: usize = 0;
        while i < targets.len()
            invariant
                i <= targets@.len(),
                self.wf(),
                self.state == armed.state,
                self.drift == armed.drift,
                self.last_elapsed == armed.last_elapsed,
                self.remotes@ == armed.remotes@,
                self.remote_elapsed@ == armed.remote_elapsed@,
                self.queue@ =~= targets@.take(i as int).map_values(
                    |t: PlayerId| (t, message),
                ),
                armed.queue@.len() == 0,
            decreases targets@.len() - i,
        {
            self.queue.push((targets[i], message));
            proof {
                assert(self.queue@ =~= targets@.take(i as int + 1).map_values(
                    |t: PlayerId| (t, message),
                ));
            }
            i += 1;
        }
        proof {
            assert(targets@.take(targets@.len() as int) =~= targets@);
        }
        if self.queue.len() > 0 {
            let first = self.queue.remove(0);
            proof {
                assert(self.queue@ =~= targets@.map_values(|t: PlayerId| (t, message)).skip(1));
            }
            Some(first)
        } else {
            None
        }
    }

    /// The next message the clock owes a peer: queued start-agreement
    /// traffic first, then a due start proposal or heartbeat, then network
    /// probes.  Never moves an accepted origin.
    pub fn message(&mut self, now: Instant) -> (r: Option<(PlayerId, ClockMessage)>)
        requires
            old(self).wf(),
            now <= NOW_LIMIT,
        ensures
            final(self).wf(),
            old(self).state_at() matches Some(at) ==> final(self).state_at() == Some(at),
            final(self).drift_spec() == old(self).drift_spec(),
            final(self).last_elapsed_spec() == old(self).last_elapsed_spec(),
            final(self).remote_ids() == old(self).remote_ids(),
    {
        if self.queue.len() > 0 {
            let first = self.queue.remove(0);
            return Some(first);
        }
        self.propose_origin(now);
        if let Some(m) = self.start_message(now) {
            return Some(m);
        }
        let ghost mid = *self;
        let mut i: usize = 0;
        let n = self.remotes.len();
        while i < n
            invariant
                i <= n,
                n == self.remotes@.len(),
                self.wf(),
                old(self).state_at() matches Some(at) ==> self.state_at() == Some(at),
                self.drift == mid.drift,
                self.last_elapsed == mid.last_elapsed,
                mid.drift_spec() == old(self).drift_spec(),
                mid.last_elapsed_spec() == old(self).last_elapsed_spec(),
                self.remote_ids() == old(self).remote_ids(),
            decreases n - i,
        {
            let ghost before = self.remotes@;
            let (pid, mut nq) = self.remotes.remove(i);
            let msg = nq.message(now);
            self.remotes.insert(i, (pid, nq));
            proof {
                assert(self.remotes@ =~= before.update(i as int, (pid, nq)));
                assert(forall|j: int|
                    0 <= j < self.remotes@.len() && j != i ==> self.remotes@[j] == before[j]);
                assert(self.remotes@.map_values(|e: (PlayerId, NetworkQuality)| e.0)
                    =~= before.map_values(|e: (PlayerId, NetworkQuality)| e.0));
            }
            if let Some(m) = msg {
                return Some((pid, ClockMessage::NetworkAnalysis(m)));
            }
            i += 1;
        }
        None
    }
}

impl SharedClock {
    /// Handles a clock message from the peer `from`.  Probes and echoes feed
    /// that peer's round-trip tracking.  An elapsed report may move the
    /// origin, but only to a strictly later instant: once agreed, the start
    /// never moves backward, and reports that deviate only slightly mark the
    /// peer as agreed instead.
    pub fn receive_message(&mut self, from: PlayerId, message: ClockMessage, now: Instant)
        requires
            old(self).wf(),
            now <= NOW_LIMIT,
            exists|i: int|
                0 <= i < old(self).remote_ids().len() && old(self).remote_ids()[i] == from,
        ensures
            final(self).wf(),
            final(self).remote_ids() == old(self).remote_ids(),
            // An accepted origin never moves earlier.
            old(self).state_at() matches Some(a) ==> (final(self).state_at() matches Some(b)
                && b >= a),
            final(self).last_elapsed_spec() == old(self).last_elapsed_spec(),
            // A probe or echo goes to exactly the sender's tracker, which
            // steps per its own exact relation; nothing else moves.
            message matches ClockMessage::NetworkAnalysis(m) ==> exists|i: int|
                {
                    &&& 0 <= i < old(self).remotes_view().len()
                    &&& (#[trigger] old(self).remotes_view()[i]).0 == from
                    &&& final(self).remotes_view() == old(self).remotes_view().update(
                        i,
                        (from, final(self).remotes_view()[i].1),
                    )
                    &&& quality_transition(
                        old(self).remotes_view()[i].1,
                        final(self).remotes_view()[i].1,
                        m,
                        now,
                    )
                },
            message is NetworkAnalysis ==> final(self).state_at() == old(self).state_at()
                && final(self).unacked_view() == old(self).unacked_view() && final(self).queue_view() == old(self).queue_view() && final(self).drift_spec() == old(self).drift_spec() && final(self).remote_elapsed_view() == old(self).remote_elapsed_view(),
            // An elapsed report: insane magnitudes are dropped whole;
            // otherwise the report is max-merged into the records, the drift
            // controller runs once, and the deduced origin is adopted per
            // the acceptance rule or the peer is marked agreed, with at most
            // one echo queued.
            message matches ClockMessage::Elapsed(amt) ==> {
                if smag(amt) > NOW_LIMIT {
                    *final(self) == *old(self)
                } else {
                    &&& final(self).remotes_view() == old(self).remotes_view()
                    &&& final(self).remote_elapsed_view() == upsert_latest(
                        old(self).remote_elapsed_view(),
                        from,
                        amt,
                        now,
                    )
                    &&& ({
                        let avg = match find_quality(old(self).remotes_view(), from) {
                            None => None::<u64>,
                            Some(nq) => rtt_avg(nq),
                        };
                        match avg {
                            None => final(self).state_at() == old(self).state_at() && final(self).unacked_view() == old(self).unacked_view() && final(self).queue_view() == old(self).queue_view(),
                            Some(r) => {
                                let cand = start_candidate(amt, r, now);
                                if accepts_origin(old(self).state_at(), cand, now) {
                                    &&& final(self).state_at() == Some(cand)
                                    &&& final(self).unacked_view() == Some(old(self).remote_ids())
                                    &&& final(self).queue_view() == old(self).queue_view()
                                } else {
                                    &&& final(self).state_at() == old(self).state_at()
                                    &&& (old(self).unacked_view() matches Some(u) ==> final(self).unacked_view() == Some(remove_first(u, from)))
                                    &&& (final(self).queue_view() == old(self).queue_view()
                                        || (old(self).state_at() matches Some(at) && final(self).queue_view() == old(self).queue_view().push(
                                        (
                                            from,
                                            ClockMessage::Elapsed(
                                                spec_plus(
                                                    duration_since_spec(now, at),
                                                    final(self).drift_spec(),
                                                ),
                                            ),
                                        ),
                                    )))
                                }
                            },
                        }
                    })
                }
            },
    {
        match message {
            ClockMessage::NetworkAnalysis(m) => {
                let ghost mid = *self;
                let mut i: usize = 0;
                let n = self.remotes.len();
                while i < n
                    invariant
                        i <= n,
                        n == self.remotes@.len(),
                        self.wf(),
                        *self == mid,
                        mid == *old(self),
                        message == ClockMessage::NetworkAnalysis(m),
                        forall|j: int| 0 <= j < i ==> (#[trigger] self.remotes@[j]).0 != from,
                    decreases n - i,
                {
                    if self.remotes[i].0 == from {
                        let ghost before = self.remotes@;
                        let (pid, mut nq) = self.remotes.remove(i);
                        nq.receive_message(m, now);
                        self.remotes.insert(i, (pid, nq));
                        proof {
                            assert(self.remotes@ =~= before.update(i as int, (pid, nq)));
                            assert(forall|j: int|
                                0 <= j < self.remotes@.len() && j != i ==> self.remotes@[j]
                                    == before[j]);
                            assert(self.remotes@.map_values(
                                |e: (PlayerId, NetworkQuality)| e.0,
                            ) =~= old(self).remote_ids());
                            assert(self.remotes@[i as int].1 == nq);
                            assert(before[i as int].0 == from);
                            assert(self.remotes@ == before.update(
                                i as int,
                                (from, self.remotes@[i as int].1),
                            ));
                            assert(quality_transition(
                                before[i as int].1,
                                self.remotes@[i as int].1,
                                m,
                                now,
                            ));
                        }
                        return;
                    }
                    i += 1;
                }
                proof {
                    // The sender is a known peer, so the scan cannot fall
                    // through.
                    let k = choose|k: int|
                        0 <= k < old(self).remote_ids().len() && old(self).remote_ids()[k]
                            == from;
                    assert(self.remotes@[k].0 == from);
                    assert(false);
                }
            },
            ClockMessage::Elapsed(amt) => {
                if amt.abs() > NOW_LIMIT {
                    // An elapsed report beyond the representable range can
                    // only be garbage; drop it.
                    return;
                }
                self.record_remote_elapsed(from, amt, now);
                self.tune_drift(now);
                let rtt = match self.average_for(from) {
                    None => {
                        return;
                    },
                    Some(rtt) => rtt,
                };
                let half: u64 = rtt / 2;
                let half = if half > NOW_LIMIT {
                    NOW_LIMIT
                } else {
                    half
                };
                let true_elapsed = amt.minus(Signed::Pos(half));
                let start_at = if true_elapsed.le(Signed::Pos(0)) {
                    true_elapsed.sub_from(now)
                } else {
                    let mag = true_elapsed.abs();
                    if mag > now {
                        // The deduced origin lies before this process
                        // started; clamp to our origin.  Such a proposal is
                        // earlier than any origin we hold and is refused
                        // below either way.
                        0
                    } else {
                        now - mag
                    }
                };
                if self.update_start_time(start_at, now) {
                } else {
                    let echo = match self.signed_elapsed(now) {
                        None => None,
                        Some(e) => {
                            if random_bool() {
                                Some(ClockMessage::Elapsed(e))
                            } else {
                                None
                            }
                        },
                    };
                    match &mut self.state {
                        ClockState::Start { unacked, .. } => {
                            let ghost before = unacked@;
                            let n = unacked.len();
                            let mut i: usize = 0;
                            while i < n && unacked[i] != from
                                invariant
                                    i <= n,
                                    n == unacked@.len(),
                                    unacked@ == before,
                                    forall|j: int| 0 <= j < i ==> (#[trigger] before[j]) != from,
                                decreases n - i,
                            {
                                i += 1;
                            }
                            if i < n {
                                proof {
                                    lemma_remove_first_at(before, from, i as int);
                                }
                                unacked.remove(i);
                            } else {
                                proof {
                                    lemma_remove_first_absent(before, from);
                                }
                            }
                        },
                        ClockState::Synchronizing => {},
                    }
                    if let Some(m) = echo {
                        self.queue.push((from, m));
                    }
                }
            },
        }
    }

    /// Remembers the latest elapsed report from a peer, with the instant it
    /// arrived.  Older or equal reports are ignored.
    fn record_remote_elapsed(&mut self, from: PlayerId, elapsed: Signed, now: Instant)
        requires
            old(self).wf(),
            now <= NOW_LIMIT,
            smag(elapsed) <= NOW_LIMIT,
        ensures
            final(self).wf(),
            final(self).state_at() == old(self).state_at(),
            final(self).drift_spec() == old(self).drift_spec(),
            final(self).last_elapsed_spec() == old(self).last_elapsed_spec(),
            final(self).remote_ids() == old(self).remote_ids(),
            final(self).remotes_view() == old(self).remotes_view(),
            final(self).queue_view() == old(self).queue_view(),
            final(self).unacked_view() == old(self).unacked_view(),
            final(self).sync_interval_view() == old(self).sync_interval_view(),
            final(self).adjust_interval_view() == old(self).adjust_interval_view(),
            final(self).remote_elapsed_view() == upsert_latest(
                old(self).remote_elapsed_view(),
                from,
                elapsed,
                now,
            ),
    {
        let ghost orig = self.remote_elapsed@;
        let mut i: usize = 0;
        let n = self.remote_elapsed.len();
        while i < n
            invariant
                i <= n,
                n == self.remote_elapsed@.len(),
                self.wf(),
                *self == *old(self),
                self.remote_elapsed@ == orig,
                smag(elapsed) <= NOW_LIMIT,
                now <= NOW_LIMIT,
                forall|j: int| 0 <= j < i ==> (#[trigger] orig[j]).0 != from,
            decreases n - i,
        {
            if self.remote_elapsed[i].0 == from {
                proof {
                    Self::lemma_upsert_latest_at(orig, from, elapsed, now, i as int);
                }
                let existing = self.remote_elapsed[i].1;
                if elapsed.le(existing) {
                    return;
                }
                let ghost before = self.remote_elapsed@;
                self.remote_elapsed.set(i, (from, elapsed, now));
                proof {
                    assert(forall|j: int|
                        0 <= j < self.remote_elapsed@.len() && j != i ==> self.remote_elapsed@[j]
                            == before[j]);
                }
                return;
            }
            i += 1;
        }
        let ghost before = self.remote_elapsed@;
        self.remote_elapsed.push((from, elapsed, now));
        proof {
            Self::lemma_upsert_latest_absent(before, from, elapsed, now);
            assert(forall|j: int|
                0 <= j < before.len() ==> self.remote_elapsed@[j] == before[j]);
        }
    }

    /// An update at the first matching record is positional (or a no-op for
    /// a stale report).
    proof fn lemma_upsert_latest_at(
        s: Seq<(PlayerId, Signed, Instant)>,
        from: PlayerId,
        e: Signed,
        now: Instant,
        i: int,
    )
        requires
            0 <= i < s.len(),
            s[i].0 == from,
            forall|j: int| 0 <= j < i ==> (#[trigger] s[j]).0 != from,
        ensures
            upsert_latest(s, from, e, now) == if crate::utils::spec_le(e, s[i].1) {
                s
            } else {
                s.update(i, (from, e, now))
            },
        decreases s.len(),
    {
        if s[0].0 == from {
            assert(i == 0);
        } else {
            let tl = s.skip(1);
            assert(forall|j: int| 0 <= j < i - 1 ==> tl[j] == s[j + 1]);
            Self::lemma_upsert_latest_at(tl, from, e, now, i - 1);
            if crate::utils::spec_le(e, s[i].1) {
                assert(upsert_latest(s, from, e, now) =~= s);
            } else {
                assert(upsert_latest(s, from, e, now) =~= s.update(i, (from, e, now)));
            }
        }
    }

    /// A report from an unknown peer appends.
    proof fn lemma_upsert_latest_absent(
        s: Seq<(PlayerId, Signed, Instant)>,
        from: PlayerId,
        e: Signed,
        now: Instant,
    )
        requires
            forall|j: int| 0 <= j < s.len() ==> (#[trigger] s[j]).0 != from,
        ensures
            upsert_latest(s, from, e, now) == s.push((from, e, now)),
        decreases s.len(),
    {
        if s.len() > 0 {
            assert(s[0].0 != from);
            let tl = s.skip(1);
            assert(forall|j: int| 0 <= j < tl.len() ==> tl[j] == s[j + 1]);
            Self::lemma_upsert_latest_absent(tl, from, e, now);
            assert(upsert_latest(s, from, e, now) =~= s.push((from, e, now)));
        } else {
            assert(upsert_latest(s, from, e, now) =~= s.push((from, e, now)));
        }
    }

    /// The average round trip to the peer `from`, if enough samples exist.
    fn average_for(&self, from: PlayerId) -> (r: Option<u64>)
        requires
            self.wf(),
        ensures
            r == match find_quality(self.remotes_view(), from) {
                None => None::<u64>,
                Some(nq) => rtt_avg(nq),
            },
    {
        let mut i: usize = 0;
        while i < self.remotes.len()
            invariant
                i <= self.remotes@.len(),
                self.wf(),
                forall|j: int| 0 <= j < i ==> (#[trigger] self.remotes@[j]).0 != from,
            decreases self.remotes@.len() - i,
        {
            if self.remotes[i].0 == from {
                proof {
                    assert(self.remotes@[i as int].1.wf());
                    lemma_find_quality_at(self.remotes@, from, i as int);
                }
                return self.remotes[i].1.average_rtt();
            }
            i += 1;
        }
        proof {
            lemma_find_quality_absent(self.remotes@, from);
        }
        None
    }

    /// Every adjustment interval, nudges the drift toward the mean of the
    /// peers' estimated elapsed times, biased slightly toward nonnegative
    /// drift, by at most one millisecond per adjustment.
    fn tune_drift(&mut self, now: Instant)
        requires
            old(self).wf(),
            now <= NOW_LIMIT,
        ensures
            final(self).wf(),
            final(self).state_at() == old(self).state_at(),
            final(self).last_elapsed_spec() == old(self).last_elapsed_spec(),
            final(self).remote_ids() == old(self).remote_ids(),
            final(self).remotes_view() == old(self).remotes_view(),
            final(self).queue_view() == old(self).queue_view(),
            final(self).remote_elapsed_view() == old(self).remote_elapsed_view(),
            final(self).unacked_view() == old(self).unacked_view(),
            final(self).sync_interval_view() == old(self).sync_interval_view(),
            // The adjustment timer is asked once, whatever else happens.
            (final(self).adjust_interval_view().every_spec() == old(self).adjust_interval_view().every_spec() && final(self).adjust_interval_view().last_spec()
                == interval_next(old(self).adjust_interval_view(), now)),
            // The correction moves slowly: at most one step per call.
            -(MAX_DRIFT_STEP as int) <= sval(final(self).drift_spec()) - sval(
                old(self).drift_spec(),
            ) <= MAX_DRIFT_STEP as int,
            // When the interval has not fired, or nothing usable is
            // recorded, the drift is untouched; otherwise it is exactly one
            // adjustment of the controller.
            !interval_due(old(self).adjust_interval_view(), now) ==> final(self).drift_spec()
                == old(self).drift_spec(),
            old(self).state_at() is None ==> final(self).drift_spec() == old(self).drift_spec(),
            old(self).remote_elapsed_view().len() == 0 || old(self).remote_elapsed_view().len()
                > 0xFFFF ==> final(self).drift_spec() == old(self).drift_spec(),
            old(self).state_at() matches Some(at) ==> (interval_due(
                old(self).adjust_interval_view(),
                now,
            ) && 1 <= old(self).remote_elapsed_view().len() <= 0xFFFF ==> final(self).drift_spec() == tuned_drift(
                old(self).remote_elapsed_view(),
                old(self).remotes_view(),
                old(self).drift_spec(),
                sval(spec_plus(duration_since_spec(now, at), old(self).drift_spec())),
                now,
            )),
    {
        if !self.adjust_drift.is_time(now) {
            return;
        }
        let local_elapsed = match self.signed_elapsed(now) {
            Some(e) => e,
            None => {
                return;
            },
        };
        proof {
            let a = choose|a: u64| old(self).state_at() == Some(a);
            crate::utils::lemma_plus_sval(duration_since_spec(now, a), old(self).drift);
            assert(smag(local_elapsed) <= START_LIMIT + DRIFT_LIMIT);
        }
        let local_i: i128 = signed_to_i128(local_elapsed);
        proof {
            assert(-(smag(local_elapsed)) <= sval(local_elapsed) <= smag(local_elapsed));
        }
        let mut sum: i128 = 0;
        let mut i: usize = 0;
        let n = self.remote_elapsed.len();
        if n == 0 || n > 0xFFFF {
            return;
        }
        let ghost mid = *self;
        while i < n
            invariant
                i <= n,
                n <= 0xFFFF,
                n == self.remote_elapsed@.len(),
                self.wf(),
                *self == mid,
                local_i == sval(local_elapsed),
                smag(local_elapsed) <= START_LIMIT + DRIFT_LIMIT,
                -(START_LIMIT + DRIFT_LIMIT) <= local_i <= START_LIMIT + DRIFT_LIMIT,
                -(i as int) * 0x1_0000_0000_0000_0000 <= sum <= (i as int)
                    * 0x1_0000_0000_0000_0000,
                now <= NOW_LIMIT,
                sum == drift_delta_sum(
                    self.remote_elapsed@.take(i as int),
                    self.remotes@,
                    now,
                    local_i as int,
                ),
            decreases n - i,
        {
            let (_, elapsed, at) = self.remote_elapsed[i];
            let rtt_half: i128 = match self.average_for(self.remote_elapsed[i].0) {
                None => 0,
                Some(rtt) => {
                    let h = rtt / 2;
                    if h > NOW_LIMIT {
                        NOW_LIMIT as i128
                    } else {
                        h as i128
                    }
                },
            };
            proof {
                assert(smag(elapsed) <= NOW_LIMIT && at <= NOW_LIMIT);
                assert(-(smag(elapsed)) <= sval(elapsed) <= smag(elapsed));
                assert(rtt_half == half_rtt_for(self.remotes@, self.remote_elapsed@[i as int].0));
                assert(self.remote_elapsed@.take(i as int + 1).drop_last()
                    =~= self.remote_elapsed@.take(i as int));
                assert(self.remote_elapsed@.take(i as int + 1).last() == self.remote_elapsed@[
                    i as int
                ]);
            }
            let remote_elapsed: i128 = signed_to_i128(elapsed) + sat_sub(now, at) as i128
                + rtt_half;
            let delta: i128 = local_i - remote_elapsed;
            proof {
                assert(-(3 * NOW_LIMIT + START_LIMIT + DRIFT_LIMIT) - NOW_LIMIT <= delta <= 3
                    * NOW_LIMIT + START_LIMIT + DRIFT_LIMIT + NOW_LIMIT) by (nonlinear_arith)
                    requires
                        -(START_LIMIT + DRIFT_LIMIT) <= local_i <= START_LIMIT + DRIFT_LIMIT,
                        -(NOW_LIMIT as int) <= signed_to_i128_spec(elapsed) <= NOW_LIMIT,
                        0 <= rtt_half <= NOW_LIMIT,
                        delta == local_i - (signed_to_i128_spec(elapsed) + sat_sub_spec(now, at)
                            + rtt_half),
                        sat_sub_spec(now, at) <= NOW_LIMIT,
                        now <= NOW_LIMIT,
                ;
                assert(4 * NOW_LIMIT + START_LIMIT + DRIFT_LIMIT
                    == 0x1_0000_0000_0000_0000int);
                assert((i as int + 1) * 0x1_0000_0000_0000_0000 == (i as int)
                    * 0x1_0000_0000_0000_0000 + 0x1_0000_0000_0000_0000) by (nonlinear_arith);
                assert((i as int) * 0x1_0000_0000_0000_0000 <= 0xFFFF
                    * 0x1_0000_0000_0000_0000int) by (nonlinear_arith)
                    requires
                        0 <= i <= 0xFFFF,
                ;
                assert(-(i as int) * 0x1_0000_0000_0000_0000 >= -0xFFFF
                    * 0x1_0000_0000_0000_0000int) by (nonlinear_arith)
                    requires
                        0 <= i <= 0xFFFF,
                ;
            }
            sum = sum + delta;
            i += 1;
        }
        proof {
            assert(self.remote_elapsed@.take(n as int) =~= self.remote_elapsed@);
        }
        // Division truncating toward zero, via the unsigned magnitude.
        let avg: i128 = if sum >= 0 {
            ((sum as u128) / (n as u128)) as i128
        } else {
            -((((-sum) as u128) / (n as u128)) as i128)
        };
        proof {
            assert(avg == trunc_div(sum as int, n as int));
        }
        let bias: i128 = match self.drift {
            Signed::Pos(_) => DRIFT_BIAS as i128,
            Signed::Neg(_) => -(DRIFT_BIAS as i128),
        };
        let delta: i128 = -avg + bias;
        let change: i128 = if delta < -(MAX_DRIFT_STEP as i128) {
            -(MAX_DRIFT_STEP as i128)
        } else if delta > MAX_DRIFT_STEP as i128 {
            MAX_DRIFT_STEP as i128
        } else {
            delta
        };
        proof {
            assert(change == clamp_step(-(avg as int) + (if self.drift is Pos {
                DRIFT_BIAS as int
            } else {
                -(DRIFT_BIAS as int)
            })));
        }
        let change_signed = if change >= 0 {
            Signed::Pos(change as u64)
        } else {
            Signed::Neg((-change) as u64)
        };
        proof {
            assert(change_signed == signed_of(change as int));
            crate::utils::lemma_plus_sval(self.drift, change_signed);
        }
        let new_drift = self.drift.plus(change_signed);
        if new_drift.abs() <= DRIFT_LIMIT {
            self.drift = new_drift;
        }
    }
}

/// The spec-level value of a signed duration as a 128-bit integer.
pub open spec fn signed_to_i128_spec(s: Signed) -> int {
    sval(s)
}

/// The signed value widened to a 128-bit integer.
pub fn signed_to_i128(s: Signed) -> (r: i128)
    ensures
        r == sval(s),
{
    match s {
        Signed::Pos(t) => t as i128,
        Signed::Neg(t) => -(t as i128),
    }
}

/// The mean of nonnegative samples is at most the largest value, hence fits.
proof fn lemma_avg_le_max(s: Seq<(Instant, u64)>)
    requires
        s.len() > 0,
    ensures
        sum_rtts(s) / s.len() as int <= u64::MAX,
{
    lemma_sum_rtts_bounds(s);
    assert(sum_rtts(s) <= s.len() * u64::MAX);
    assert(sum_rtts(s) / s.len() as int <= u64::MAX) by (nonlinear_arith)
        requires
            s.len() > 0,
            0 <= sum_rtts(s) <= s.len() * u64::MAX,
    ;
}

/// Pops the front of a due-time-ordered queue if its time has come.
///
/// The queue holds (due instant, item) pairs, earliest first; an item is
/// released only once `now` reaches its due time.
pub fn next_ready<T>(queue: &mut Vec<(Instant, T)>, now: Instant) -> (r: Option<T>)
    ensures
        match r {
            Some(_) => old(queue)@.len() > 0 && old(queue)@[0].0 <= now && final(queue)@ == old(
                queue,
            )@.skip(1),
            None => final(queue)@ == old(queue)@ && (old(queue)@.len() == 0 || old(queue)@[0].0
                > now),
        },
        r matches Some(t) ==> t == old(queue)@[0].1,
{
    if queue.len() == 0 {
        return None;
    }
    if queue[0].0 > now {
        return None;
    }
    let (_, item) = queue.remove(0);
    proof {
        assert(queue@ =~= old(queue)@.skip(1));
    }
    Some(item)
}

} // verus!
