//! Bandwidth accounting: a rolling histogram of recent byte counts and a
//! socket wrapper that records every datagram's size.

use vstd::prelude::*;

verus! {

use crate::Nanos;
use crate::PlayerId;
use crate::socket::NonBlockingSocket;
use crate::socket::SocketStats;
use crate::time::sat_sub;
use crate::time::sat_sub_spec;
use crate::utils::Signed;

/// A session's network health snapshot.
pub struct NetworkStats {
    /// The clock's current drift correction.
    pub drift: Signed,
    /// The signed elapsed time since the agreed origin, zero while
    /// synchronizing.
    pub elapsed: Signed,
    /// Transport throughput, when the socket records it.
    pub socket: Option<SocketStats>,
}

/// The sum of the samples recorded at or after `cutoff`.
pub open spec fn sum_since(s: Seq<(Nanos, u64)>, cutoff: int) -> int
    decreases s.len(),
{
    if s.len() == 0 {
        0
    } else {
        sum_since(s.drop_last(), cutoff) + if s.last().0 >= cutoff {
            s.last().1 as int
        } else {
            0
        }
    }
}

proof fn lemma_sum_since_bounds(s: Seq<(Nanos, u64)>, cutoff: int)
    ensures
        0 <= sum_since(s, cutoff) <= s.len() * u64::MAX,
    decreases s.len(),
{
    if s.len() > 0 {
        lemma_sum_since_bounds(s.drop_last(), cutoff);
        assert((s.len() - 1) * u64::MAX + u64::MAX == s.len() * u64::MAX) by (nonlinear_arith);
    }
}

/// Largest sample window, in whole seconds.
pub const MAX_WINDOW_SECS: u64 = 1_000_000_000;

/// What a bulk prune leaves: everything, until the oldest sample has aged
/// past twice the window; after that, exactly the samples within one window.
pub open spec fn cleaned(s: Seq<(Nanos, u64)>, window: Nanos, now: Nanos) -> Seq<(Nanos, u64)> {
    if s.len() == 0 || sat_sub_spec(now, s[0].0) < 2 * window {
        s
    } else {
        s.filter(|e: (Nanos, u64)| e.0 >= sat_sub_spec(now, window))
    }
}

/// The per-second average a histogram reports: the in-window sum divided by
/// the window's whole seconds, saturating at the integer ceiling.
pub open spec fn windowed_avg(s: Seq<(Nanos, u64)>, window: Nanos, secs: u64, now: Nanos) -> int {
    let q = sum_since(s, sat_sub_spec(now, window) as int) / secs as int;
    if q <= u64::MAX {
        q
    } else {
        u64::MAX as int
    }
}

/// A rolling (instant, count) histogram that reports the per-second average
/// over its window.
pub struct Historical {
    map: Vec<(Nanos, u64)>,  // sorted by instant, oldest first
    keep_for: Nanos,
    keep_secs: u64,
}

impl Historical {
    /// Keys non-decreasing, window consistent and positive.
    pub closed spec fn wf(self) -> bool {
        &&& forall|i: int, j: int|
            0 <= i < j < self.map@.len() ==> (#[trigger] self.map@[i]).0 <= (
            #[trigger] self.map@[j]).0
        &&& self.keep_for == self.keep_secs * 1_000_000_000
        &&& 1 <= self.keep_secs <= MAX_WINDOW_SECS
    }

    /// The recorded samples, oldest first.
    pub closed spec fn samples(self) -> Seq<(Nanos, u64)> {
        self.map@
    }

    /// The window length in nanoseconds.
    pub closed spec fn window(self) -> Nanos {
        self.keep_for
    }

    /// The window length in whole seconds.
    pub closed spec fn window_secs(self) -> u64 {
        self.keep_secs
    }

    /// An empty histogram keeping `secs` seconds of samples.
    pub fn over_secs(secs: u64) -> (r: Self)
        requires
            1 <= secs <= MAX_WINDOW_SECS,
        ensures
            r.wf(),
            r.samples().len() == 0,
            r.window_secs() == secs,
    {
        Historical { map: Vec::new(), keep_for: secs * 1_000_000_000, keep_secs: secs }
    }

    /// Drops samples in bulk, but only once the oldest one has aged past
    /// twice the window; what stays is exactly the samples within one window.
    pub fn clean(&mut self, now: Nanos)
        requires
            old(self).wf(),
        ensures
            final(self).wf(),
            final(self).window() == old(self).window(),
            final(self).window_secs() == old(self).window_secs(),
            final(self).samples() == cleaned(old(self).samples(), old(self).window(), now),
    {
        if self.map.len() == 0 {
            return;
        }
        let oldest = self.map[0].0;
        if sat_sub(now, oldest) < 2 * self.keep_for {
            return;
        }
        let cutoff = sat_sub(now, self.keep_for);
        let ghost orig = self.map@;
        let mut kept: Vec<(Nanos, u64)> = Vec::new();
        let mut i: usize = 0;
        while i < self.map.len()
            invariant
                i <= self.map@.len(),
                self.map@ == orig,
                cutoff == sat_sub_spec(now, self.keep_for),
                forall|a: int, b: int|
                    0 <= a < b < orig.len() ==> (#[trigger] orig[a]).0 <= (#[trigger] orig[b]).0,
                forall|a: int, b: int|
                    0 <= a < b < kept@.len() ==> (#[trigger] kept@[a]).0 <= (
                    #[trigger] kept@[b]).0,
                forall|a: int|
                    0 <= a < kept@.len() ==> exists|j: int|
                        0 <= j < i && #[trigger] kept@[a] == orig[j],
                kept@ =~= orig.take(i as int).filter(
                    |e: (Nanos, u64)| e.0 >= sat_sub_spec(now, self.keep_for),
                ),
            decreases self.map@.len() - i,
        {
            proof {
                assert(orig.take(i as int + 1).drop_last() =~= orig.take(i as int));
                assert(orig.take(i as int + 1).last() == orig[i as int]);
                reveal(Seq::filter);
            }
            let e = self.map[i];
            if e.0 >= cutoff {
                let ghost k2 = kept@.push(e);
                proof {
                    assert forall|a: int| 0 <= a < k2.len() implies exists|j: int|
                        0 <= j < i + 1 && #[trigger] k2[a] == orig[j] by {
                        if a < k2.len() - 1 {
                            assert(k2[a] == kept@[a]);
                            let j = choose|j: int| 0 <= j < i && #[trigger] kept@[a] == orig[j];
                            assert(k2[a] == orig[j]);
                        } else {
                            assert(k2[a] == orig[i as int]);
                        }
                    }
                    assert forall|a: int, b: int| 0 <= a < b < k2.len() implies (
                    #[trigger] k2[a]).0 <= (#[trigger] k2[b]).0 by {
                        if b < k2.len() - 1 {
                            assert(k2[a] == kept@[a] && k2[b] == kept@[b]);
                        } else {
                            assert(k2[a] == kept@[a]);
                            let j = choose|j: int| 0 <= j < i && #[trigger] kept@[a] == orig[j];
                            assert(orig[j].0 <= orig[i as int].0);
                        }
                    }
                }
                kept.push(e);
            }
            i += 1;
        }
        proof {
            assert(orig.take(orig.len() as int) =~= orig);
        }
        self.map = kept;
    }

    /// Records `amount` at the instant `now`.
    pub fn increment(&mut self, now: Nanos, amount: u64)
        requires
            old(self).wf(),
        ensures
            final(self).wf(),
            final(self).window() == old(self).window(),
            final(self).window_secs() == old(self).window_secs(),
            exists|k: int|
                0 <= k <= old(self).samples().len() && final(self).samples() == #[trigger] old(
                    self,
                ).samples().insert(k, (now, amount)),
    {
        let ghost orig = self.map@;
        let mut pos = self.map.len();
        while pos > 0 && self.map[pos - 1].0 > now
            invariant
                pos <= self.map@.len(),
                self.map@ == orig,
                forall|j: int| pos <= j < orig.len() ==> (#[trigger] orig[j]).0 > now,
            decreases pos,
        {
            pos -= 1;
        }
        self.map.insert(pos, (now, amount));
        proof {
            let r = self.map@;
            assert(r[pos as int] == (now, amount));
            assert(orig == old(self).samples());
            assert(self.samples() == old(self).samples().insert(pos as int, (now, amount)));
            assert(exists|k: int|
                0 <= k <= old(self).samples().len() && self.samples() == #[trigger] old(
                    self,
                ).samples().insert(k, (now, amount)));
            assert forall|a: int, b: int| 0 <= a < b < r.len() implies (r[a]).0 <= (r[b]).0 by {
                if a < pos && b == pos {
                    assert(r[a] == orig[a]);
                } else if a < pos && b > pos {
                    assert(r[a] == orig[a] && r[b] == orig[b - 1]);
                } else if a == pos && b > pos {
                    assert(r[b] == orig[b - 1]);
                } else if b < pos {
                    assert(r[a] == orig[a] && r[b] == orig[b]);
                } else if a > pos {
                    assert(r[a] == orig[a - 1] && r[b] == orig[b - 1]);
                }
            }
        }
    }

    /// The sum of the samples within the last window, divided by the window's
    /// whole seconds.
    pub fn avg_per_sec(&self, now: Nanos) -> (r: u64)
        requires
            self.wf(),
        ensures
            r == windowed_avg(self.samples(), self.window(), self.window_secs(), now),
    {
        let cutoff = sat_sub(now, self.keep_for);
        proof {
            vstd::std_specs::vec::axiom_spec_len(&self.map);
            lemma_sum_since_bounds(self.map@, cutoff as int);
            assert(self.map@.len() * u64::MAX <= usize::MAX * (u64::MAX as int)) by (
            nonlinear_arith)
                requires
                    self.map@.len() <= usize::MAX,
            ;
        }
        let mut sum: u128 = 0;
        let mut i: usize = 0;
        while i < self.map.len()
            invariant
                i <= self.map@.len(),
                self.wf(),
                sum == sum_since(self.map@.take(i as int), cutoff as int),
                sum_since(self.map@.take(i as int), cutoff as int) <= i * u64::MAX,
            decreases self.map@.len() - i,
        {
            proof {
                assert(self.map@.take(i as int + 1).drop_last() =~= self.map@.take(i as int));
                assert((i + 1) * u64::MAX == i * u64::MAX + u64::MAX) by (nonlinear_arith);
                assert(i * u64::MAX <= usize::MAX * (u64::MAX as int)) by (nonlinear_arith)
                    requires
                        i <= usize::MAX,
                ;
            }
            if self.map[i].0 >= cutoff {
                sum = sum + self.map[i].1 as u128;
            }
            i += 1;
        }
        proof {
            assert(self.map@.take(self.map@.len() as int) =~= self.map@);
            lemma_sum_since_bounds(self.map@, cutoff as int);
            assert(sum_since(self.map@, cutoff as int) / self.keep_secs as int
                <= sum_since(self.map@, cutoff as int)) by (nonlinear_arith)
                requires
                    self.keep_secs >= 1,
                    sum_since(self.map@, cutoff as int) >= 0,
            ;
            assert(sum as int / self.keep_secs as int <= u128::MAX) by (nonlinear_arith)
                requires
                    self.keep_secs >= 1,
                    0 <= sum <= u128::MAX,
            ;
        }
        let avg = sum / (self.keep_secs as u128);
        proof {
            assert(avg <= sum);
            assert(sum <= self.map@.len() * u64::MAX);
            assert(self.map@.len() * u64::MAX < u128::MAX) by (nonlinear_arith)
                requires
                    self.map@.len() <= usize::MAX,
            ;
            assert(avg * 1 <= u64::MAX || true);
        }
        if avg > u64::MAX as u128 {
            // The averaged byte count cannot exceed a u64 total in practice;
            // saturate defensively.
            u64::MAX
        } else {
            avg as u64
        }
    }
}

/// A transport wrapper recording each datagram's size into rolling
/// three-second histograms, exposed through `stats`.
pub struct BandwidthRecordingSocket<S> {
    socket: S,
    incoming_bytes: Historical,
    outgoing_bytes: Historical,
}

impl<S: NonBlockingSocket> BandwidthRecordingSocket<S> {
    /// Histograms well formed, sharing one window.
    pub closed spec fn wf(self) -> bool {
        &&& self.incoming_bytes.wf()
        &&& self.outgoing_bytes.wf()
        &&& self.incoming_bytes.window() == self.outgoing_bytes.window()
        &&& self.incoming_bytes.window_secs() == self.outgoing_bytes.window_secs()
    }

    /// The samples of the incoming-bytes histogram.
    pub closed spec fn incoming_samples(self) -> Seq<(Nanos, u64)> {
        self.incoming_bytes.samples()
    }

    /// The samples of the outgoing-bytes histogram.
    pub closed spec fn outgoing_samples(self) -> Seq<(Nanos, u64)> {
        self.outgoing_bytes.samples()
    }

    /// The histograms' window, in nanoseconds.
    pub closed spec fn window(self) -> Nanos {
        self.outgoing_bytes.window()
    }

    /// Wraps `socket` with empty three-second histograms.
    pub fn new(socket: S) -> (r: Self)
        ensures
            r.wf(),
            r.incoming_samples().len() == 0,
            r.outgoing_samples().len() == 0,
    {
        BandwidthRecordingSocket {
            socket,
            incoming_bytes: Historical::over_secs(3),
            outgoing_bytes: Historical::over_secs(3),
        }
    }

    fn clean_old(&mut self, now: Nanos)
        requires
            old(self).wf(),
        ensures
            final(self).wf(),
            final(self).incoming_samples() == cleaned(
                old(self).incoming_samples(),
                old(self).window(),
                now,
            ),
            final(self).outgoing_samples() == cleaned(
                old(self).outgoing_samples(),
                old(self).window(),
                now,
            ),
            final(self).window() == old(self).window(),
    {
        self.incoming_bytes.clean(now);
        self.outgoing_bytes.clean(now);
    }

    /// Prunes stale samples, records the outgoing size, then forwards to the
    /// inner transport.
    pub fn send(&mut self, message: &Vec<u8>, addr: PlayerId, now: Nanos)
        requires
            old(self).wf(),
        ensures
            final(self).wf(),
            exists|k: int|
                0 <= k && final(self).outgoing_samples() == #[trigger] cleaned(
                    old(self).outgoing_samples(),
                    old(self).window(),
                    now,
                ).insert(k, (now, message@.len() as u64)),
            final(self).incoming_samples() == cleaned(
                old(self).incoming_samples(),
                old(self).window(),
                now,
            ),
    {
        self.clean_old(now);
        self.outgoing_bytes.increment(now, message.len() as u64);
        self.socket.send(message, addr, now);
    }

    /// Prunes stale samples and forwards a receive, recording the incoming
    /// size of anything that arrived.
    pub fn recv(&mut self, now: Nanos) -> (r: Option<(PlayerId, Vec<u8>)>)
        requires
            old(self).wf(),
        ensures
            final(self).wf(),
            final(self).outgoing_samples() == cleaned(
                old(self).outgoing_samples(),
                old(self).window(),
                now,
            ),
            r matches Some((_, m)) ==> exists|k: int|
                0 <= k && final(self).incoming_samples() == #[trigger] cleaned(
                    old(self).incoming_samples(),
                    old(self).window(),
                    now,
                ).insert(k, (now, m@.len() as u64)),
            r is None ==> final(self).incoming_samples() == cleaned(
                old(self).incoming_samples(),
                old(self).window(),
                now,
            ),
    {
        self.clean_old(now);
        match self.socket.recv(now) {
            None => None,
            Some((from, m)) => {
                self.incoming_bytes.increment(now, m.len() as u64);
                Some((from, m))
            },
        }
    }

    /// The rolling averages, in bytes per second.
    pub fn stats(&self, now: Nanos) -> (r: Option<SocketStats>)
        requires
            self.wf(),
        ensures
            r matches Some(st) && st.incoming_bytes == windowed_avg(
                self.incoming_samples(),
                self.window(),
                self.window_whole_secs(),
                now,
            ) && st.outgoing_bytes == windowed_avg(
                self.outgoing_samples(),
                self.window(),
                self.window_whole_secs(),
                now,
            ),
    {
        Some(
            SocketStats {
                incoming_bytes: self.incoming_bytes.avg_per_sec(now),
                outgoing_bytes: self.outgoing_bytes.avg_per_sec(now),
            },
        )
    }

    /// The histograms' window, in whole seconds.
    pub closed spec fn window_whole_secs(self) -> u64 {
        self.outgoing_bytes.window_secs()
    }
}

} // verus!
