//! Peer-to-peer rollback networking for deterministic step-based simulations.
//!
//! The session keeps several peers' simulations in lockstep at a fixed step
//! interval over an unreliable datagram transport.  It speculates forward with
//! locally captured input plus the most recently known remote inputs, and
//! rolls back and re-executes as soon as authoritative remote input arrives.

use vstd::prelude::*;

pub mod builder;
pub mod codec;
pub mod exponential_keeping;
pub mod inputs;
pub mod plugin;
pub mod request_handler;
pub mod socket;
pub mod stats;
pub mod time;
pub mod utils;

verus! {

use crate::exponential_keeping::kept_set;
use crate::exponential_keeping::kept_set_contains;
use crate::exponential_keeping::seq_elems;
use crate::inputs::InputStorage;
use crate::inputs::clone_bytes;
use crate::inputs::entries_sorted;
use crate::inputs::has_key;
use crate::inputs::insert_entry;
use crate::inputs::lemma_insert_entry_char;
use crate::inputs::lemma_insert_entry_sorted;
use core::ops::ControlFlow;
use crate::inputs::PlayerInputs;
use crate::plugin::SessionPlugin;
use crate::plugin::WarnRemoteMismatchedChecksum;
use crate::request_handler::Confirmation;
use crate::request_handler::Request;
use crate::request_handler::RequestHandler;
use crate::request_handler::Response;
use crate::socket::NonBlockingSocket;
use crate::stats::NetworkStats;
use crate::time::Interval;
use crate::time::NOW_LIMIT;
use crate::time::SharedClock;
use crate::utils::Signed;

/// A frame ordinal.  Frame 0 is the common origin of all peers.
pub type Frame = u32;

/// Simulated time and step sizes, measured in nanoseconds.
pub type Nanos = u64;

/// A player identifier, shared by all peers of a session.
pub type PlayerId = u16;

/// Serialized simulation state, opaque to the session.
pub type SerializedState = Vec<u8>;

/// Serialized input for one player at one frame, opaque to the session.
pub type SerializedInput = Vec<u8>;

/// Whether every entry of the store for `local` is seeded with an input at
/// frame 0, which local capture guarantees.
pub open spec fn storage_seeded(st: InputStorage, local: PlayerId) -> bool {
    forall|j: int|
        0 <= j < st.players_view().len() && (#[trigger] st.players_view()[j]).0 == local
            ==> has_key(st.players_view()[j].1.entries_view(), 0)
}

/// A confirmation-notice list with the peer's entry raised to at least
/// `frame`: the first entry for the peer takes the maximum of its old value
/// and `frame`; a peer without an entry is appended.
pub open spec fn merge_notice(
    s: Seq<(PlayerId, Frame)>,
    from: PlayerId,
    frame: Frame,
) -> Seq<(PlayerId, Frame)>
    decreases s.len(),
{
    if s.len() == 0 {
        seq![(from, frame)]
    } else if s[0].0 == from {
        s.update(0, (from, if s[0].1 >= frame { s[0].1 } else { frame }))
    } else {
        seq![s[0]] + merge_notice(s.skip(1), from, frame)
    }
}

/// Raising a notice at the first matching entry is a positional update.
proof fn lemma_merge_notice_at(s: Seq<(PlayerId, Frame)>, from: PlayerId, frame: Frame, i: int)
    requires
        0 <= i < s.len(),
        s[i].0 == from,
        forall|j: int| 0 <= j < i ==> (#[trigger] s[j]).0 != from,
    ensures
        merge_notice(s, from, frame) == s.update(
            i,
            (from, if s[i].1 >= frame {
                s[i].1
            } else {
                frame
            }),
        ),
    decreases s.len(),
{
    if s[0].0 == from {
        assert(i == 0);
    } else {
        let tl = s.skip(1);
        assert(forall|j: int| 0 <= j < i - 1 ==> tl[j] == s[j + 1]);
        lemma_merge_notice_at(tl, from, frame, i - 1);
        assert(merge_notice(s, from, frame) =~= s.update(
            i,
            (from, if s[i].1 >= frame {
                s[i].1
            } else {
                frame
            }),
        ));
    }
}

/// A notice for an unknown peer appends.
proof fn lemma_merge_notice_absent(s: Seq<(PlayerId, Frame)>, from: PlayerId, frame: Frame)
    requires
        forall|j: int| 0 <= j < s.len() ==> (#[trigger] s[j]).0 != from,
    ensures
        merge_notice(s, from, frame) == s.push((from, frame)),
    decreases s.len(),
{
    if s.len() > 0 {
        assert(s[0].0 != from);
        let tl = s.skip(1);
        assert(forall|j: int| 0 <= j < tl.len() ==> tl[j] == s[j + 1]);
        lemma_merge_notice_absent(tl, from, frame);
        assert(merge_notice(s, from, frame) =~= s.push((from, frame)));
    } else {
        assert(merge_notice(s, from, frame) =~= s.push((from, frame)));
    }
}

/// One participant, as seen from this session.
pub enum Player {
    Local,
    Remote,
}

/// Where the host's simulation stands relative to the frame grid.
#[derive(Clone, Copy, PartialEq, Eq, Debug, Structural)]
pub enum FrameState {
    /// Exactly at the start of the frame.
    At(Frame),
    /// Inside the frame, the given nanoseconds past its start.
    After(Frame, Nanos),
}

impl FrameState {
    /// The frame, whether at its start or inside it.
    pub fn into_frame(self) -> (r: Frame)
        ensures
            r == self.frame_spec(),
    {
        match self {
            FrameState::At(f) => f,
            FrameState::After(f, _) => f,
        }
    }

    /// The frame component.
    pub open spec fn frame_spec(self) -> Frame {
        match self {
            FrameState::At(f) => f,
            FrameState::After(f, _) => f,
        }
    }
}

/// Largest simulated instant the driver will reach, comfortably past any
/// elapsed time the clock can serve.
pub const HOST_LIMIT: u64 = 0xD000_0000_0000_0000;

/// Largest realtime frame the driver will aim for.
pub const FRAME_LIMIT: u32 = 0xFFFF_FFFE;

/// How many datagrams one tick will read or write at most.
pub const TICK_IO_BUDGET: u32 = 256;

/// Nanoseconds between retransmissions of local inputs.
pub const SEND_EVERY: u64 = 50_000_000;

/// A rollback session: the driver that keeps the host simulation in lockstep
/// with its peers.
pub struct Session<S> {
    pub(crate) confirmed_states: Vec<(Frame, SerializedState)>,
    pub(crate) inputs: InputStorage,
    pub(crate) step_size: Nanos,
    pub(crate) local_id: PlayerId,
    pub(crate) remote_players: Vec<PlayerId>,
    pub(crate) socket: S,
    pub(crate) host_at: Nanos,
    pub(crate) unconfirmed: Frame,
    pub(crate) remote_unconfirmed: Vec<(PlayerId, Frame)>,
    pub(crate) send_interval: Interval,
    pub(crate) shared_clock: SharedClock,
    pub(crate) plugins: Vec<WarnRemoteMismatchedChecksum>,
}

impl<S> Session<S> {
    /// The snapshot ring: sorted (frame, state) pairs.
    pub closed spec fn ring(self) -> Seq<(Frame, SerializedState)> {
        self.confirmed_states@
    }

    /// The confirmation horizon: the smallest frame whose inputs are not yet
    /// confirmed by every peer.
    pub closed spec fn unconfirmed_spec(self) -> Frame {
        self.unconfirmed
    }

    /// The simulated time the host has executed to.
    pub closed spec fn host_at_spec(self) -> Nanos {
        self.host_at
    }

    /// The logical step length.
    pub closed spec fn step_spec(self) -> Nanos {
        self.step_size
    }

    /// The input store.
    pub closed spec fn inputs_spec(self) -> InputStorage {
        self.inputs
    }

    /// The local player id.
    pub closed spec fn local_id_spec(self) -> PlayerId {
        self.local_id
    }

    /// The ids of the remote peers.
    pub closed spec fn remote_ids(self) -> Seq<PlayerId> {
        self.remote_players@
    }

    /// The installed plugins.
    pub closed spec fn plugins_view(self) -> Seq<WarnRemoteMismatchedChecksum> {
        self.plugins@
    }

    /// Whether every local entry of the input store is seeded with the
    /// default input at frame 0, which local capture guarantees.
    pub open spec fn local_seeded(self) -> bool {
        storage_seeded(self.inputs_spec(), self.local_id_spec())
    }

    /// The structural session invariant: bounds, a sorted snapshot ring with
    /// frame 0 at its root, a host instant on the frame grid, and well-formed
    /// subsystems.
    pub closed spec fn inv(self) -> bool {
        &&& 1 <= self.step_size <= NOW_LIMIT
        &&& self.unconfirmed >= 1
        &&& entries_sorted(self.confirmed_states@)
        &&& (self.confirmed_states@.len() > 0 ==> self.confirmed_states@[0].0 == 0)
        &&& (self.host_at > 0 ==> self.confirmed_states@.len() > 0)
        &&& self.host_at as int % self.step_size as int == 0
        &&& self.host_at <= HOST_LIMIT
        &&& self.host_at as int / self.step_size as int <= FRAME_LIMIT
        &&& self.inputs.wf()
        &&& self.shared_clock.wf()
        &&& self.remote_players@.len() <= 0xFFFE
        &&& (forall|i: int|
            0 <= i < self.remote_players@.len() ==> (#[trigger] self.remote_players@[i])
                != self.local_id)
        &&& self.shared_clock.remote_ids() == self.remote_players@
        &&& self.local_seeded()
    }

    /// The session's well-formedness, as callers see it.
    pub open spec fn wf(self) -> bool {
        self.inv()
    }

    /// The realtime frame the shared clock serves at `now`, `None` while it
    /// is synchronizing, before the origin, or past the frame range.
    pub open spec fn served_frame(self, now: Nanos) -> Option<Frame> {
        match self.clock_serves(now) {
            None => None,
            Some(d) => {
                let q = d as int / self.step_spec() as int;
                if q > FRAME_LIMIT {
                    None
                } else {
                    Some(q as Frame)
                }
            },
        }
    }

    /// What the shared clock serves at `now`.
    pub closed spec fn clock_serves(self, now: Nanos) -> Option<u64> {
        self.shared_clock.serves(now)
    }

    /// Whether the next unconfirmed frame can be confirmed right now: the
    /// horizon and the host are behind the realtime frame, every player's
    /// input at the frame below the horizon is present and authoritative,
    /// and the local player has its frame-0 seed.
    pub open spec fn confirmable(self, realtime: Frame) -> bool {
        &&& self.unconfirmed_spec() <= realtime
        &&& (self.host_at_spec() as int / self.step_spec() as int) < realtime
        &&& crate::inputs::at_frame_spec(
            self.inputs_spec().players_view(),
            self.unconfirmed_spec() - 1,
        ).len() == self.remote_ids().len() + 1
        &&& crate::inputs::all_confirmed(
            crate::inputs::at_frame_spec(
                self.inputs_spec().players_view(),
                self.unconfirmed_spec() - 1,
            ),
        )
        &&& exists|i: int|
            0 <= i < self.inputs_spec().players_view().len() && (
            #[trigger] self.inputs_spec().players_view()[i]).0 == self.local_id_spec()
                && has_key(self.inputs_spec().players_view()[i].1.entries_view(), 0)
    }
}

impl<S: NonBlockingSocket> Session<S> {
    /// Every participant of the session, the local one first.
    pub fn players(&self) -> (r: Vec<(PlayerId, Player)>)
        ensures
            r@.len() == 1 + self.remote_ids().len(),
            r@[0].0 == self.local_id_spec() && r@[0].1 is Local,
            forall|i: int|
                0 <= i < self.remote_ids().len() ==> (#[trigger] r@[i + 1]).0
                    == self.remote_ids()[i] && r@[i + 1].1 is Remote,
    {
        let mut r: Vec<(PlayerId, Player)> = Vec::new();
        r.push((self.local_id, Player::Local));
        let mut i: usize = 0;
        while i < self.remote_players.len()
            invariant
                i <= self.remote_players@.len(),
                r@.len() == 1 + i,
                r@[0].0 == self.local_id_spec() && r@[0].1 is Local,
                forall|j: int|
                    0 <= j < i ==> (#[trigger] r@[j + 1]).0 == self.remote_ids()[j] && r@[j
                        + 1].1 is Remote,
            decreases self.remote_players@.len() - i,
        {
            r.push((self.remote_players[i], Player::Remote));
            i += 1;
        }
        r
    }

    /// A snapshot of drift, elapsed time and socket throughput.
    pub fn network_stats(&self, now: Nanos) -> (r: NetworkStats)
        requires
            self.wf(),
            now <= NOW_LIMIT,
        ensures
            r.drift == self.clock_drift(),
            r.elapsed == match self.clock_origin() {
                None => Signed::Pos(0u64),
                Some(at) => crate::utils::spec_plus(
                    crate::time::duration_since_spec(now, at),
                    self.clock_drift(),
                ),
            },
    {
        let elapsed = match self.shared_clock.signed_elapsed(now) {
            Some(e) => e,
            None => Signed::Pos(0),
        };
        NetworkStats { drift: self.shared_clock.drift(), elapsed, socket: self.socket.stats() }
    }

    /// The shared clock's drift correction.
    pub closed spec fn clock_drift(self) -> Signed {
        self.shared_clock.drift_spec()
    }

    /// The shared clock's agreed origin, once one exists.
    pub closed spec fn clock_origin(self) -> Option<Nanos> {
        self.shared_clock.state_at()
    }

    /// The host's position on the frame grid.  The session keeps `host_at`
    /// an exact multiple of the step, so this is always `At`.
    fn host_frame(&self) -> (r: FrameState)
        requires
            self.inv(),
        ensures
            r == FrameState::At((self.host_at_spec() as int / self.step_spec() as int) as Frame),
    {
        let (n, rem) = crate::utils::div_duration(self.host_at, self.step_size);
        proof {
            vstd::arithmetic::div_mod::lemma_fundamental_div_mod_converse(
                self.host_at as int,
                self.step_size as int,
                n as int,
                rem as int,
            );
        }
        FrameState::At(n)
    }

    /// The realtime frame implied by the shared clock, `None` while the
    /// clock is synchronizing, before the agreed origin, or past the
    /// representable frame range.
    fn clock_frame(&mut self, now: Nanos) -> (r: Option<Frame>)
        requires
            old(self).inv(),
            now <= NOW_LIMIT,
        ensures
            final(self).inv(),
            final(self).unconfirmed_spec() == old(self).unconfirmed_spec(),
            final(self).host_at_spec() == old(self).host_at_spec(),
            final(self).step_spec() == old(self).step_spec(),
            final(self).ring() == old(self).ring(),
            final(self).inputs_spec() == old(self).inputs_spec(),
            final(self).local_id_spec() == old(self).local_id_spec(),
            final(self).remote_ids() == old(self).remote_ids(),
            r matches Some(f) ==> f <= FRAME_LIMIT && final(self).step_spec() as int * (
            f as int) <= 0xC000_0000_0000_0000,
            r == old(self).served_frame(now),
            final(self).served_frame(now) == r,
    {
        let dur = match self.shared_clock.elapsed(now) {
            None => {
                return None;
            },
            Some(d) => d,
        };
        let q = dur / self.step_size;
        if q > FRAME_LIMIT as u64 {
            return None;
        }
        proof {
            vstd::arithmetic::div_mod::lemma_fundamental_div_mod(
                dur as int,
                self.step_size as int,
            );
        }
        Some(q as u32)
    }

    /// Whether `frame`'s snapshot is due: the retention schedule wants it and
    /// the ring does not hold it yet.
    fn should_save(&self, frame: Frame, kept_frames: &Vec<u32>) -> (r: bool)
        ensures
            r == (seq_elems(kept_frames@).contains(frame as int) && !has_key(
                self.ring(),
                frame as int,
            )),
    {
        if !kept_set_contains(kept_frames, frame) {
            return false;
        }
        let mut i: usize = 0;
        while i < self.confirmed_states.len()
            invariant
                i <= self.confirmed_states@.len(),
                forall|j: int| 0 <= j < i ==> (#[trigger] self.confirmed_states@[j]).0 != frame,
            decreases self.confirmed_states@.len() - i,
        {
            if self.confirmed_states[i].0 == frame {
                return false;
            }
            i += 1;
        }
        true
    }

    /// Purges every snapshot the retention schedule no longer wants: the
    /// keys afterwards are exactly the old keys that are in the kept-set.
    #[verifier::rlimit(100)]
    #[verifier::spinoff_prover]
    fn clear_states(&mut self, kept_frames: &Vec<u32>)
        requires
            old(self).inv(),
            seq_elems(kept_frames@).contains(0),
        ensures
            final(self).inv(),
            forall|g: int| #[trigger] has_key(final(self).ring(), g) <==> has_key(
                old(self).ring(),
                g,
            ) && seq_elems(kept_frames@).contains(g),
            // Surviving snapshots keep their bytes: the ring afterwards is
            // exactly the old entries whose frame the schedule keeps.
            final(self).ring() == old(self).ring().filter(
                (|e: (Frame, SerializedState)| seq_elems(kept_frames@).contains(e.0 as int)),
            ),
            final(self).unconfirmed_spec() == old(self).unconfirmed_spec(),
            final(self).host_at_spec() == old(self).host_at_spec(),
            final(self).step_spec() == old(self).step_spec(),
            final(self).inputs_spec() == old(self).inputs_spec(),
            final(self).local_id_spec() == old(self).local_id_spec(),
            final(self).remote_ids() == old(self).remote_ids(),
            final(self).shared_clock == old(self).shared_clock,
            final(self).ring().len() > 0 <==> old(self).ring().len() > 0,
    {
        let ghost orig = self.confirmed_states@;
        let mut old_entries: Vec<(Frame, SerializedState)> = Vec::new();
        core::mem::swap(&mut self.confirmed_states, &mut old_entries);
        let mut kept_entries: Vec<(Frame, SerializedState)> = Vec::new();
        proof {
            assert(old_entries@ == orig);
            assert(orig.skip(0) =~= orig);
        }
        while old_entries.len() > 0
            invariant
                old_entries@.len() <= orig.len(),
                old_entries@ =~= orig.skip(orig.len() - old_entries@.len()),
                entries_sorted(orig),
                forall|a: int, b: int|
                    0 <= a < b < kept_entries@.len() ==> (#[trigger] kept_entries@[a]).0 < (
                    #[trigger] kept_entries@[b]).0,
                forall|a: int|
                    0 <= a < kept_entries@.len() ==> exists|j: int|
                        0 <= j < orig.len() - old_entries@.len() && #[trigger] kept_entries@[a]
                            == orig[j],
                kept_entries@ =~= orig.take(orig.len() - old_entries@.len()).filter(
                    (|e: (Frame, SerializedState)| seq_elems(kept_frames@).contains(e.0 as int)),
                ),
                forall|g: int|
                    #[trigger] has_key(kept_entries@, g) ==> has_key(orig, g) && seq_elems(
                        kept_frames@,
                    ).contains(g),
                forall|j: int|
                    0 <= j < orig.len() - old_entries@.len() && seq_elems(kept_frames@).contains(
                        (#[trigger] orig[j]).0 as int,
                    ) ==> has_key(kept_entries@, orig[j].0 as int),
            decreases old_entries@.len(),
        {
            let ghost i = orig.len() - old_entries@.len();
            proof {
                assert(old_entries@[0] == orig.skip(i)[0]);
                assert(old_entries@[0] == orig[i]);
                assert(orig.take(i + 1).drop_last() =~= orig.take(i));
                assert(orig.take(i + 1).last() == orig[i]);
                reveal(Seq::filter);
            }
            let e = old_entries.remove(0);
            proof {
                assert(old_entries@ =~= orig.skip(i + 1));
            }
            if kept_set_contains(kept_frames, e.0) {
                let ghost k2 = kept_entries@.push(e);
                proof {
                    assert(e == orig[i]);
                    assert forall|a: int| 0 <= a < k2.len() implies exists|j: int|
                        0 <= j < i + 1 && #[trigger] k2[a] == orig[j] by {
                        if a < k2.len() - 1 {
                            assert(k2[a] == kept_entries@[a]);
                            let j = choose|j: int|
                                0 <= j < i && #[trigger] kept_entries@[a] == orig[j];
                            assert(k2[a] == orig[j]);
                        } else {
                            assert(k2[a] == orig[i]);
                        }
                    }
                    assert forall|a: int, b: int| 0 <= a < b < k2.len() implies (
                    #[trigger] k2[a]).0 < (#[trigger] k2[b]).0 by {
                        if b < k2.len() - 1 {
                            assert(k2[a] == kept_entries@[a] && k2[b] == kept_entries@[b]);
                        } else {
                            assert(k2[a] == kept_entries@[a]);
                            let j = choose|j: int|
                                0 <= j < i && #[trigger] kept_entries@[a] == orig[j];
                            assert(orig[j].0 < orig[i].0);
                        }
                    }
                    assert forall|g: int| #[trigger] has_key(k2, g) implies has_key(orig, g)
                        && seq_elems(kept_frames@).contains(g) by {
                        let a = choose|a: int| 0 <= a < k2.len() && (#[trigger] k2[a]).0 == g;
                        if a < k2.len() - 1 {
                            assert(has_key(kept_entries@, g));
                        } else {
                            assert(orig[i].0 == g);
                        }
                    }
                }
                let ghost prev = kept_entries@;
                kept_entries.push(e);
                proof {
                    assert(kept_entries@ =~= k2);
                    assert(kept_entries@[kept_entries@.len() - 1] == orig[i]);
                    assert(has_key(kept_entries@, orig[i].0 as int));
                    assert forall|g: int| #[trigger] has_key(prev, g) implies has_key(
                        kept_entries@,
                        g,
                    ) by {
                        let a = choose|a: int| 0 <= a < prev.len() && (#[trigger] prev[a]).0 == g;
                        assert(kept_entries@[a] == prev[a]);
                    }
                }
            }
        }
        proof {
            assert forall|g: int| has_key(orig, g) && seq_elems(kept_frames@).contains(
                g,
            ) implies #[trigger] has_key(kept_entries@, g) by {
                let j = choose|j: int| 0 <= j < orig.len() && (#[trigger] orig[j]).0 == g;
            }
        }
        self.confirmed_states = kept_entries;
        proof {
            assert(orig.take(orig.len() as int) =~= orig);
            assert forall|g: int| #[trigger] has_key(self.confirmed_states@, g) implies has_key(
                orig,
                g,
            ) && seq_elems(kept_frames@).contains(g) by {
                assert(has_key(kept_entries@, g));
            }
            assert forall|g: int|
                has_key(orig, g) && seq_elems(kept_frames@).contains(g) implies #[trigger] has_key(
                self.confirmed_states@,
                g,
            ) by {
                assert(has_key(kept_entries@, g));
            }
            if self.confirmed_states@.len() > 0 {
                assert(has_key(
                    self.confirmed_states@,
                    self.confirmed_states@[0].0 as int,
                ));
            }
            if orig.len() > 0 {
                assert(orig[0].0 == 0);
                assert(has_key(orig, 0));
                assert(has_key(self.confirmed_states@, 0));
                let z = choose|z: int|
                    0 <= z < self.confirmed_states@.len() && (
                    #[trigger] self.confirmed_states@[z]).0 == 0;
                if z > 0 {
                    assert(self.confirmed_states@[0].0 < self.confirmed_states@[z].0);
                }
                assert(self.confirmed_states@[0].0 == 0);
            }
        }
    }

    /// Stores a snapshot at `frame`, which must not be present yet.
    fn ring_store(&mut self, frame: Frame, state: SerializedState)
        requires
            old(self).inv(),
            !has_key(old(self).ring(), frame as int),
            frame == 0 || (old(self).ring().len() > 0 && old(self).ring()[0].0 == 0),
        ensures
            final(self).inv(),
            has_key(final(self).ring(), frame as int),
            forall|g: int| #[trigger] has_key(final(self).ring(), g) <==> g == frame || has_key(
                old(self).ring(),
                g,
            ),
            final(self).ring() == insert_entry(old(self).ring(), frame, state),
            final(self).ring().len() > 0,
            final(self).unconfirmed_spec() == old(self).unconfirmed_spec(),
            final(self).host_at_spec() == old(self).host_at_spec(),
            final(self).step_spec() == old(self).step_spec(),
            final(self).inputs_spec() == old(self).inputs_spec(),
            final(self).local_id_spec() == old(self).local_id_spec(),
            final(self).remote_ids() == old(self).remote_ids(),
            final(self).shared_clock == old(self).shared_clock,
    {
        let ghost orig = self.confirmed_states@;
        let n = self.confirmed_states.len();
        let mut pos: usize = 0;
        while pos < n && self.confirmed_states[pos].0 < frame
            invariant
                pos <= n,
                n == self.confirmed_states@.len(),
                self.confirmed_states@ == orig,
                forall|j: int| 0 <= j < pos ==> (#[trigger] orig[j]).0 < frame,
            decreases n - pos,
        {
            pos += 1;
        }
        proof {
            assert forall|j: int| pos <= j < orig.len() implies (#[trigger] orig[j]).0
                >= frame by {
                assert(orig[pos as int].0 >= frame);
            }
            lemma_insert_entry_char(orig, frame, state, pos as int);
            lemma_insert_entry_sorted(orig, frame, state);
        }
        self.confirmed_states.insert(pos, (frame, state));
        proof {
            assert(self.confirmed_states@ =~= insert_entry(orig, frame, state));
            if frame == 0 {
                assert(pos == 0);
            } else {
                assert(orig[0].0 == 0);
                assert(pos > 0);
                assert(self.confirmed_states@[0] == orig[0]);
            }
        }
    }

    /// The index of the snapshot to roll back to: the greatest stored frame
    /// at or below `target`.  Frame 0 is stored first, so one always exists.
    /// The snapshot to roll back to: the frame of the greatest stored entry
    /// at or below `target`, with a byte-for-byte copy of its stored state.
    /// This is the exact payload every `LoadFrom` request carries.
    fn snapshot_for(&self, target: Frame) -> (r: (Frame, SerializedState))
        requires
            self.inv(),
            self.ring().len() > 0,
        ensures
            exists|i: int|
                {
                    &&& 0 <= i < self.ring().len()
                    &&& (#[trigger] self.ring()[i]).0 == r.0
                    &&& self.ring()[i].1@ == r.1@
                    &&& self.ring()[i].0 <= target
                    &&& forall|j: int|
                        i < j < self.ring().len() ==> (#[trigger] self.ring()[j]).0 > target
                },
            r.0 <= target,
            // The chosen frame is the greatest stored frame at or below the
            // target.
            forall|j: int|
                0 <= j < self.ring().len() && (#[trigger] self.ring()[j]).0 <= target ==> self.ring()[j].0 <= r.0,
    {
        let idx = self.rollback_lookup(target);
        let frame = self.confirmed_states[idx].0;
        let state = clone_bytes(&self.confirmed_states[idx].1);
        proof {
            assert(self.ring()[idx as int].0 == frame);
            assert forall|j: int|
                0 <= j < self.ring().len() && (#[trigger] self.ring()[j]).0 <= target implies self.ring()[j].0 <= frame by {
                if j > idx {
                    assert(self.ring()[j].0 > target);
                }
            }
        }
        (frame, state)
    }

    fn rollback_lookup(&self, target: Frame) -> (r: usize)
        requires
            self.inv(),
            self.ring().len() > 0,
        ensures
            r < self.ring().len(),
            self.ring()[r as int].0 <= target,
            forall|j: int| r < j < self.ring().len() ==> (#[trigger] self.ring()[j]).0 > target,
    {
        let mut idx: usize = 0;
        let n = self.confirmed_states.len();
        let mut i: usize = 1;
        while i < n
            invariant
                idx < i <= n,
                n == self.confirmed_states@.len(),
                self.inv(),
                self.confirmed_states@[idx as int].0 <= target,
                forall|j: int| idx < j < i ==> (#[trigger] self.confirmed_states@[j]).0 > target,
            decreases n - i,
        {
            if self.confirmed_states[i].0 <= target {
                idx = i;
            }
            i += 1;
        }
        idx
    }
}


impl<S: NonBlockingSocket> Session<S> {
    /// The confirmation label an advance carries: `First` for a fresh
    /// confirmation, else `Subsequent` exactly when every player's input is
    /// present and authoritative, else `Unconfirmed`.
    pub open spec fn confirm_tag_spec(first: bool, fully_confirmed: bool) -> Confirmation {
        if first {
            Confirmation::First
        } else if fully_confirmed {
            Confirmation::Subsequent
        } else {
            Confirmation::Unconfirmed
        }
    }

    /// Computes the confirmation label for an advance over `inputs`.
    fn confirm_tag(&self, inputs: &PlayerInputs, first_confirm: bool) -> (r: Confirmation)
        requires
            self.inv(),
        ensures
            r == Self::confirm_tag_spec(
                first_confirm,
                inputs.entries_view().len() == self.remote_ids().len() + 1
                    && crate::inputs::all_confirmed(inputs.entries_view()),
            ),
    {
        if first_confirm {
            Confirmation::First
        } else if inputs.is_fully_confirmed(self.remote_players.len()) {
            Confirmation::Subsequent
        } else {
            Confirmation::Unconfirmed
        }
    }

    /// Issues one `Advance` to the host and moves the host instant forward,
    /// whether or not the handler pauses.  The request carries exactly the
    /// given inputs and amount, labelled by [`Self::confirm_tag`].
    fn advance_with<H: RequestHandler>(
        &mut self,
        inputs: PlayerInputs,
        handler: &mut H,
        amount: Nanos,
        first_confirm: bool,
    ) -> (r: ControlFlow<H::Break>)
        requires
            old(self).inv(),
            amount == old(self).step_spec(),
            (old(self).host_at_spec() as int / old(self).step_spec() as int) < FRAME_LIMIT,
            old(self).host_at_spec() + amount <= HOST_LIMIT,
            old(self).ring().len() > 0,
        ensures
            final(self).inv(),
            final(self).shared_clock == old(self).shared_clock,
            final(self).host_at_spec() == old(self).host_at_spec() + amount,
            final(self).unconfirmed_spec() == old(self).unconfirmed_spec(),
            final(self).step_spec() == old(self).step_spec(),
            final(self).ring() == old(self).ring(),
            final(self).inputs_spec() == old(self).inputs_spec(),
            final(self).local_id_spec() == old(self).local_id_spec(),
            final(self).remote_ids() == old(self).remote_ids(),
    {
        let confirmed = self.confirm_tag(&inputs, first_confirm);
        let current_frame = self.host_frame().into_frame();
        let result = handler.handle_request(
            Request::Advance { amount, inputs, confirmed, current_frame },
        );
        proof {
            let h = self.host_at as int;
            let st = self.step_size as int;
            assert((h + st) / st == h / st + 1 && (h + st) % st == 0) by (nonlinear_arith)
                requires
                    st >= 1,
                    h >= 0,
                    h % st == 0,
            ;
        }
        self.host_at = self.host_at + amount;
        match result {
            ControlFlow::Break(b) => ControlFlow::Break(b),
            ControlFlow::Continue(_) => ControlFlow::Continue(()),
        }
    }

    /// Advances one frame using the aggregate read at the host's frame,
    /// which the seeded local player keeps defined.
    fn do_advance<H: RequestHandler>(&mut self, handler: &mut H) -> (r: ControlFlow<H::Break>)
        requires
            old(self).inv(),
            (old(self).host_at_spec() as int / old(self).step_spec() as int) < FRAME_LIMIT,
            old(self).host_at_spec() + old(self).step_spec() <= HOST_LIMIT,
            old(self).ring().len() > 0,
            exists|i: int|
                0 <= i < old(self).inputs_spec().players_view().len() && (#[trigger] old(self).inputs_spec().players_view()[i]).0 == old(self).local_id_spec(),
        ensures
            final(self).inv(),
            final(self).shared_clock == old(self).shared_clock,
            final(self).host_at_spec() == old(self).host_at_spec() + old(self).step_spec(),
            final(self).unconfirmed_spec() == old(self).unconfirmed_spec(),
            final(self).step_spec() == old(self).step_spec(),
            final(self).ring() == old(self).ring(),
            final(self).inputs_spec() == old(self).inputs_spec(),
            final(self).local_id_spec() == old(self).local_id_spec(),
            final(self).remote_ids() == old(self).remote_ids(),
    {
        let frame = self.host_frame().into_frame();
        let inp = self.inputs.at_frame(frame);
        match inp {
            Some(inputs) => {
                let step = self.step_size;
                self.advance_with(inputs, handler, step, false)
            },
            None => {
                proof {
                    let i = choose|i: int|
                        0 <= i < self.inputs_spec().players_view().len() && (
                        #[trigger] self.inputs_spec().players_view()[i]).0
                            == self.local_id_spec();
                    crate::inputs::lemma_storage_player_sorted(self.inputs_spec(), i);
                    assert(has_key(self.inputs_spec().players_view()[i].1.entries_view(), 0));
                    crate::inputs::lemma_at_defined(
                        self.inputs_spec().players_view()[i].1.entries_view(),
                        0,
                        frame as int,
                    );
                    crate::inputs::lemma_at_frame_nonempty(
                        self.inputs_spec().players_view(),
                        i,
                        frame as int,
                    );
                }
                // Unreachable: the local player's seed keeps the read defined.
                ControlFlow::Continue(())
            },
        }
    }

    /// Advances one frame if inputs for it are known at all; reports whether
    /// it advanced.
    fn try_advance<H: RequestHandler>(&mut self, handler: &mut H, amount: Nanos) -> (r:
        ControlFlow<H::Break, bool>)
        requires
            old(self).inv(),
            amount == old(self).step_spec(),
            (old(self).host_at_spec() as int / old(self).step_spec() as int) < FRAME_LIMIT,
            old(self).host_at_spec() + amount <= HOST_LIMIT,
            old(self).ring().len() > 0,
        ensures
            final(self).inv(),
            final(self).shared_clock == old(self).shared_clock,
            final(self).unconfirmed_spec() == old(self).unconfirmed_spec(),
            final(self).step_spec() == old(self).step_spec(),
            final(self).ring() == old(self).ring(),
            final(self).inputs_spec() == old(self).inputs_spec(),
            final(self).local_id_spec() == old(self).local_id_spec(),
            final(self).remote_ids() == old(self).remote_ids(),
            r matches ControlFlow::Continue(adv) ==> final(self).host_at_spec() == if adv {
                (old(self).host_at_spec() + amount) as u64
            } else {
                old(self).host_at_spec()
            },
            r is Break ==> final(self).host_at_spec() == old(self).host_at_spec() + amount,
            // An advance is skipped exactly when no player's input is known
            // at the host's frame.
            r == ControlFlow::<H::Break, bool>::Continue(false) <==> crate::inputs::at_frame_spec(
                old(self).inputs_spec().players_view(),
                old(self).host_at_spec() as int / old(self).step_spec() as int,
            ).len() == 0,
            r == ControlFlow::<H::Break, bool>::Continue(false) ==> *final(self) == *old(self),
    {
        let frame = self.host_frame().into_frame();
        match self.inputs.at_frame(frame) {
            Some(inputs) => {
                match self.advance_with(inputs, handler, amount, false) {
                    ControlFlow::Break(b) => ControlFlow::Break(b),
                    ControlFlow::Continue(()) => ControlFlow::Continue(true),
                }
            },
            None => ControlFlow::Continue(false),
        }
    }

    /// Captures the local input for the realtime frame, unless one exists or
    /// the frame is the reserved origin.
    fn capture_inputs<H: RequestHandler>(&mut self, handler: &mut H, realtime: Frame) -> (r:
        ControlFlow<Option<H::Break>>)
        requires
            old(self).inv(),
        ensures
            final(self).inv(),
            final(self).host_at_spec() == old(self).host_at_spec(),
            final(self).unconfirmed_spec() == old(self).unconfirmed_spec(),
            final(self).step_spec() == old(self).step_spec(),
            final(self).ring() == old(self).ring(),
            final(self).local_id_spec() == old(self).local_id_spec(),
            final(self).remote_ids() == old(self).remote_ids(),
            final(self).shared_clock == old(self).shared_clock,
            r matches ControlFlow::Break(b) ==> b is Some,
    {
        if realtime == 0 {
            return ControlFlow::Continue(());
        }
        if self.inputs.has_input(self.local_id, realtime) {
            return ControlFlow::Continue(());
        }
        match handler.handle_request(Request::CaptureLocalInput) {
            ControlFlow::Break(b) => ControlFlow::Break(Some(b)),
            ControlFlow::Continue(resp) => {
                match resp {
                    Response::Captured(bytes) => {
                        let local = self.local_id;
                        self.inputs.capture_into(realtime, local, bytes);
                        ControlFlow::Continue(())
                    },
                    _ => {
                        proof {
                            assert(false);
                        }
                        ControlFlow::Continue(())
                    },
                }
            },
        }
    }

    /// Saves the frame-0 snapshot if the ring is empty; afterwards (unless
    /// the handler paused) the ring is never empty again.
    fn save_frame_zero<H: RequestHandler>(&mut self, handler: &mut H) -> (r: ControlFlow<
        H::Break,
    >)
        requires
            old(self).inv(),
        ensures
            final(self).inv(),
            final(self).host_at_spec() == old(self).host_at_spec(),
            final(self).unconfirmed_spec() == old(self).unconfirmed_spec(),
            final(self).step_spec() == old(self).step_spec(),
            final(self).inputs_spec() == old(self).inputs_spec(),
            final(self).local_id_spec() == old(self).local_id_spec(),
            final(self).remote_ids() == old(self).remote_ids(),
            r is Continue ==> final(self).ring().len() > 0,
            final(self).shared_clock == old(self).shared_clock,
            old(self).ring().len() > 0 ==> final(self).ring() == old(self).ring(),
            old(self).ring().len() == 0 && r is Continue ==> final(self).ring().len() == 1
                && final(self).ring()[0].0 == 0,
            old(self).ring().len() == 0 && r is Break ==> final(self).ring() == old(self).ring(),
    {
        if self.confirmed_states.len() > 0 {
            return ControlFlow::Continue(());
        }
        match handler.handle_request(Request::SaveTo) {
            ControlFlow::Break(b) => ControlFlow::Break(b),
            ControlFlow::Continue(resp) => {
                match resp {
                    Response::Saved(bytes) => {
                        self.ring_store(0, bytes);
                        ControlFlow::Continue(())
                    },
                    _ => {
                        proof {
                            assert(false);
                        }
                        ControlFlow::Continue(())
                    },
                }
            },
        }
    }
}

impl<S: NonBlockingSocket> Session<S> {
    /// If a snapshot of the current frame is due, purges stale snapshots and
    /// asks the host to save.  Immediately after a save, every ring key is in
    /// the kept-set of the current horizon.
    fn save_if_due<H: RequestHandler>(
        &mut self,
        handler: &mut H,
        kept_frames: &Vec<u32>,
        current: Frame,
    ) -> (r: ControlFlow<H::Break>)
        requires
            old(self).inv(),
            seq_elems(kept_frames@).contains(0),
            old(self).ring().len() > 0,
        ensures
            final(self).inv(),
            final(self).shared_clock == old(self).shared_clock,
            final(self).ring().len() > 0,
            final(self).host_at_spec() == old(self).host_at_spec(),
            final(self).unconfirmed_spec() == old(self).unconfirmed_spec(),
            final(self).step_spec() == old(self).step_spec(),
            final(self).inputs_spec() == old(self).inputs_spec(),
            final(self).local_id_spec() == old(self).local_id_spec(),
            final(self).remote_ids() == old(self).remote_ids(),
            has_key(old(self).ring(), current as int) ==> has_key(
                final(self).ring(),
                current as int,
            ),
            seq_elems(kept_frames@).contains(current as int) && !has_key(
                old(self).ring(),
                current as int,
            ) && r is Continue ==> has_key(final(self).ring(), current as int) && forall|g: int|
                #[trigger] has_key(final(self).ring(), g) ==> seq_elems(kept_frames@).contains(g),
    {
        if !self.should_save(current, kept_frames) {
            return ControlFlow::Continue(());
        }
        self.clear_states(kept_frames);
        match handler.handle_request(Request::SaveTo) {
            ControlFlow::Break(b) => ControlFlow::Break(b),
            ControlFlow::Continue(resp) => {
                match resp {
                    Response::Saved(bytes) => {
                        self.ring_store(current, bytes);
                        ControlFlow::Continue(())
                    },
                    _ => {
                        proof {
                            assert(false);
                        }
                        ControlFlow::Continue(())
                    },
                }
            },
        }
    }

    /// Whether the ring holds a snapshot at exactly `frame`.
    fn ring_holds(&self, frame: Frame) -> (r: bool)
        ensures
            r == has_key(self.ring(), frame as int),
    {
        let mut i: usize = 0;
        while i < self.confirmed_states.len()
            invariant
                i <= self.confirmed_states@.len(),
                forall|j: int| 0 <= j < i ==> (#[trigger] self.confirmed_states@[j]).0 != frame,
            decreases self.confirmed_states@.len() - i,
        {
            if self.confirmed_states[i].0 == frame {
                return true;
            }
            i += 1;
        }
        false
    }

    /// Moves the host to exactly `target`: rolls back to the greatest stored
    /// snapshot at or below it, then advances frame by frame, saving due
    /// snapshots along the way.
    fn navigate_to<H: RequestHandler>(&mut self, frame: Frame, handler: &mut H) -> (r:
        ControlFlow<H::Break>)
        requires
            old(self).inv(),
            old(self).ring().len() > 0,
            frame <= FRAME_LIMIT,
            (frame as int + 1) * old(self).step_spec() as int <= HOST_LIMIT,
            exists|i: int|
                0 <= i < old(self).inputs_spec().players_view().len() && (#[trigger] old(self).inputs_spec().players_view()[i]).0 == old(self).local_id_spec(),
        ensures
            final(self).inv(),
            final(self).shared_clock == old(self).shared_clock,
            final(self).ring().len() > 0,
            final(self).unconfirmed_spec() == old(self).unconfirmed_spec(),
            final(self).step_spec() == old(self).step_spec(),
            final(self).inputs_spec() == old(self).inputs_spec(),
            final(self).local_id_spec() == old(self).local_id_spec(),
            final(self).remote_ids() == old(self).remote_ids(),
            r is Continue ==> final(self).host_at_spec() == final(self).step_spec() * frame,
    {
        let kept_frames = kept_set(self.unconfirmed);
        proof {
            crate::exponential_keeping::lemma_kept_zero(self.unconfirmed as int);
        }
        loop
            invariant
                self.inv(),
                self.ring().len() > 0,
                seq_elems(kept_frames@) == crate::exponential_keeping::kept(
                    self.unconfirmed_spec() as int,
                ),
                seq_elems(kept_frames@).contains(0),
                self.unconfirmed_spec() == old(self).unconfirmed_spec(),
                self.step_spec() == old(self).step_spec(),
                self.inputs_spec() == old(self).inputs_spec(),
                self.local_id_spec() == old(self).local_id_spec(),
                self.remote_ids() == old(self).remote_ids(),
                self.shared_clock == old(self).shared_clock,
                frame <= FRAME_LIMIT,
                (frame as int + 1) * self.step_spec() as int <= HOST_LIMIT,
                exists|i: int|
                    0 <= i < self.inputs_spec().players_view().len() && (
                    #[trigger] self.inputs_spec().players_view()[i]).0 == self.local_id_spec(),
            decreases (if self.host_at_spec() > self.step_spec() * frame {
                1int
            } else {
                0int
            }), (if self.host_at_spec() > self.step_spec() * frame {
                self.host_at_spec() as int
            } else {
                self.step_spec() * frame - self.host_at_spec()
            }),
        {
            let current = self.host_frame().into_frame();
            match self.save_if_due(handler, &kept_frames, current) {
                ControlFlow::Break(b) => {
                    return ControlFlow::Break(b);
                },
                ControlFlow::Continue(()) => {},
            }
            if current == frame {
                proof {
                    assert(self.host_at_spec() as int == self.step_spec() as int * frame) by (
                    nonlinear_arith)
                        requires
                            self.step_spec() >= 1,
                            self.host_at_spec() as int % self.step_spec() as int == 0,
                            self.host_at_spec() as int / self.step_spec() as int == frame as int,
                    ;
                }
                return ControlFlow::Continue(());
            } else if current > frame {
                proof {
                    let st = self.step_spec() as int;
                    let h = self.host_at_spec() as int;
                    assert(h > st * frame as int) by (nonlinear_arith)
                        requires
                            st >= 1,
                            h >= 0,
                            h % st == 0,
                            h / st > frame as int,
                    ;
                }
                let (roll_to, state) = self.snapshot_for(frame);
                let result = handler.handle_request(Request::LoadFrom(state));
                proof {
                    let st = self.step_spec() as int;
                    let rt = roll_to as int;
                    let fr = frame as int;
                    assert(st * rt <= HOST_LIMIT && (st * rt) % st == 0 && (st * rt) / st == rt
                        && st * rt <= st * fr && (st * rt) / st <= FRAME_LIMIT) by (
                    nonlinear_arith)
                        requires
                            st >= 1,
                            0 <= rt <= fr,
                            fr <= FRAME_LIMIT,
                            (fr + 1) * st <= HOST_LIMIT as int,
                    ;
                }
                self.host_at = self.step_size * (roll_to as u64);
                match result {
                    ControlFlow::Break(b) => {
                        return ControlFlow::Break(b);
                    },
                    ControlFlow::Continue(_) => {},
                }
            } else {
                proof {
                    let st = self.step_spec() as int;
                    let h = self.host_at_spec() as int;
                    assert(h + st <= st * frame as int && (h / st) < FRAME_LIMIT) by (
                    nonlinear_arith)
                        requires
                            st >= 1,
                            h % st == 0,
                            h / st < frame as int,
                            frame <= FRAME_LIMIT,
                            h >= 0,
                    ;
                    assert(st * frame as int <= HOST_LIMIT) by (nonlinear_arith)
                        requires
                            st >= 1,
                            (frame as int + 1) * st <= HOST_LIMIT,
                    ;
                }
                match self.do_advance(handler) {
                    ControlFlow::Break(b) => {
                        return ControlFlow::Break(b);
                    },
                    ControlFlow::Continue(()) => {},
                }
            }
        }
    }
}

impl<S: NonBlockingSocket> Session<S> {
    /// Confirms frames while every peer's input for the next unconfirmed
    /// frame is authoritative: navigates there, issues the first confirmed
    /// advance, moves the horizon up and shows the confirmed state to the
    /// plugins.  The horizon only ever grows.
    fn advance_confirmed_horizon<H: RequestHandler>(
        &mut self,
        handler: &mut H,
        realtime: Frame,
        now: Nanos,
    ) -> (r: ControlFlow<Option<H::Break>>)
        requires
            old(self).inv(),
            old(self).ring().len() > 0,
            realtime <= FRAME_LIMIT,
            old(self).step_spec() as int * realtime as int <= 0xC000_0000_0000_0000,
        ensures
            final(self).inv(),
            final(self).shared_clock == old(self).shared_clock,
            final(self).ring().len() > 0,
            final(self).unconfirmed_spec() >= old(self).unconfirmed_spec(),
            final(self).step_spec() == old(self).step_spec(),
            final(self).local_id_spec() == old(self).local_id_spec(),
            final(self).remote_ids() == old(self).remote_ids(),
            // With nothing to confirm, nothing moves.
            !old(self).confirmable(realtime) ==> *final(self) == *old(self) && r is Continue,
            // The loop runs to exhaustion: on a normal return nothing more
            // is confirmable.
            r is Continue ==> !final(self).confirmable(realtime),
            r matches ControlFlow::Break(b) ==> b is Some,
    {
        loop
            invariant
                self.inv(),
                self.ring().len() > 0,
                self.unconfirmed_spec() >= old(self).unconfirmed_spec(),
                self.step_spec() == old(self).step_spec(),
                self.local_id_spec() == old(self).local_id_spec(),
                self.remote_ids() == old(self).remote_ids(),
                self.shared_clock == old(self).shared_clock,
                !old(self).confirmable(realtime) ==> *self == *old(self),
                realtime <= FRAME_LIMIT,
                self.step_spec() as int * realtime as int <= 0xC000_0000_0000_0000,
            decreases (if self.unconfirmed_spec() <= realtime {
                realtime + 1 - self.unconfirmed_spec()
            } else {
                0int
            }),
        {
            let ghost iter_start = *self;
            if self.unconfirmed > realtime {
                return ControlFlow::Continue(());
            }
            let last_confirmed = self.unconfirmed - 1;
            let hf = self.host_frame().into_frame();
            if !(hf < realtime) {
                return ControlFlow::Continue(());
            }
            let ghost agg = crate::inputs::at_frame_spec(
                self.inputs_spec().players_view(),
                last_confirmed as int,
            );
            let inp = match self.inputs.at_frame(last_confirmed) {
                None => {
                    return ControlFlow::Continue(());
                },
                Some(inp) => inp,
            };
            if !inp.is_fully_confirmed(self.remote_players.len()) {
                proof {
                    // The aggregate read is not fully confirmed either: its
                    // labels are the collection's labels.
                    if self.confirmable(realtime) {
                        assert(inp.entries_view().len() == agg.len());
                        assert forall|k: int| 0 <= k < inp.entries_view().len() implies (
                        #[trigger] inp.entries_view()[k]).1 is Confirmed by {
                            assert(agg[k] == crate::inputs::pi_view(inp)[k]);
                            assert(agg[k].1 is Confirmed);
                        }
                        assert(false);
                    }
                }
                return ControlFlow::Continue(());
            }
            if !self.inputs.has_input(self.local_id, 0) {
                // Without the local frame-0 seed nothing was ever captured
                // locally; confirming would dereference missing inputs.
                return ControlFlow::Continue(());
            }
            proof {
                // Every guard passed: this iteration confirms a frame.
                assert(agg.len() == crate::inputs::pi_view(inp).len());
                assert forall|k: int| 0 <= k < agg.len() implies (#[trigger] agg[k]).1
                    is Confirmed by {
                    assert(agg[k] == crate::inputs::pi_view(inp)[k]);
                    assert(inp.entries_view()[k].1 is Confirmed);
                }
                assert(self.confirmable(realtime));
                assert(iter_start.confirmable(realtime));
                if !old(self).confirmable(realtime) {
                    assert(iter_start == *old(self));
                }
            }
            proof {
                let st = self.step_spec() as int;
                let lc = last_confirmed as int;
                assert((lc + 1) * st <= HOST_LIMIT && st * lc <= st * realtime as int) by (
                nonlinear_arith)
                    requires
                        st >= 1,
                        0 <= lc < realtime as int,
                        st * (realtime as int) <= 0xC000_0000_0000_0000,
                        st <= NOW_LIMIT as int,
                ;
            }
            match self.navigate_to(last_confirmed, handler) {
                ControlFlow::Break(b) => {
                    return ControlFlow::Break(Some(b));
                },
                ControlFlow::Continue(()) => {},
            }
            // The confirmed state, for the plugins: the stored snapshot if
            // one exists, else a fresh save.
            let state_bytes: SerializedState = if self.ring_holds(last_confirmed) {
                let mut found: SerializedState = Vec::new();
                let mut i: usize = 0;
                let n = self.confirmed_states.len();
                while i < n
                    invariant
                        i <= n,
                        n == self.confirmed_states@.len(),
                    decreases n - i,
                {
                    if self.confirmed_states[i].0 == last_confirmed {
                        found = clone_bytes(&self.confirmed_states[i].1);
                        break ;
                    }
                    i += 1;
                }
                found
            } else {
                match handler.handle_request(Request::SaveTo) {
                    ControlFlow::Break(b) => {
                        return ControlFlow::Break(Some(b));
                    },
                    ControlFlow::Continue(resp) => {
                        match resp {
                            Response::Saved(bytes) => bytes,
                            _ => {
                                proof {
                                    assert(false);
                                }
                                Vec::new()
                            },
                        }
                    },
                }
            };
            proof {
                let st = self.step_spec() as int;
                let lc = last_confirmed as int;
                assert((st * lc) / st == lc && st * lc + st <= HOST_LIMIT) by (nonlinear_arith)
                    requires
                        st >= 1,
                        0 <= lc,
                        (lc + 1) * st <= HOST_LIMIT as int,
                ;
            }
            let step = self.step_size;
            let advanced = self.advance_with(inp, handler, step, true);
            self.unconfirmed = self.unconfirmed + 1;
            match advanced {
                ControlFlow::Break(b) => {
                    return ControlFlow::Break(Some(b));
                },
                ControlFlow::Continue(()) => {},
            }
            // Show the confirmed frame to every plugin.
            let mut p: usize = 0;
            while p < self.plugins.len()
                invariant
                    p <= self.plugins@.len(),
                    self.inv(),
                    self.ring().len() > 0,
                    self.unconfirmed_spec() >= old(self).unconfirmed_spec(),
                    self.step_spec() == old(self).step_spec(),
                    self.local_id_spec() == old(self).local_id_spec(),
                    self.remote_ids() == old(self).remote_ids(),
                    self.shared_clock == old(self).shared_clock,
                    old(self).confirmable(realtime),
                    realtime <= FRAME_LIMIT,
                    self.step_spec() as int * realtime as int <= 0xC000_0000_0000_0000,
                    self.unconfirmed_spec() == last_confirmed + 2,
                decreases self.plugins@.len() - p,
            {
                let (mut pg) = self.plugins.remove(p);
                pg.on_confirmed_frame(last_confirmed, &state_bytes, now);
                self.plugins.insert(p, pg);
                p += 1;
            }
        }
    }
}

impl<S: NonBlockingSocket> Session<S> {
    /// Whether `id` is one of the session's remote peers.
    fn is_remote(&self, id: PlayerId) -> (r: bool)
        ensures
            r == exists|i: int|
                0 <= i < self.remote_ids().len() && (#[trigger] self.remote_ids()[i]) == id,
    {
        let mut i: usize = 0;
        while i < self.remote_players.len()
            invariant
                i <= self.remote_players@.len(),
                forall|j: int| 0 <= j < i ==> (#[trigger] self.remote_players@[j]) != id,
            decreases self.remote_players@.len() - i,
        {
            if self.remote_players[i] == id {
                proof {
                    assert(self.remote_ids()[i as int] == id);
                }
                return true;
            }
            i += 1;
        }
        false
    }

    /// Records a peer's confirmation notice, keeping the largest frame heard:
    /// the peer's stored horizon only ever grows.
    fn update_remote_unconfirmed(&mut self, from: PlayerId, frame: Frame)
        ensures
            final(self).inv() == old(self).inv(),
            final(self).ring() == old(self).ring(),
            final(self).inputs_spec() == old(self).inputs_spec(),
            final(self).unconfirmed_spec() == old(self).unconfirmed_spec(),
            final(self).host_at_spec() == old(self).host_at_spec(),
            final(self).step_spec() == old(self).step_spec(),
            final(self).local_id_spec() == old(self).local_id_spec(),
            final(self).remote_ids() == old(self).remote_ids(),
            final(self).remote_unconfirmed@ == merge_notice(
                old(self).remote_unconfirmed@,
                from,
                frame,
            ),
    {
        let ghost orig = self.remote_unconfirmed@;
        let mut i: usize = 0;
        let n = self.remote_unconfirmed.len();
        while i < n
            invariant
                i <= n,
                n == self.remote_unconfirmed@.len(),
                *self == *old(self),
                self.remote_unconfirmed@ == orig,
                forall|j: int| 0 <= j < i ==> (#[trigger] orig[j]).0 != from,
            decreases n - i,
        {
            if self.remote_unconfirmed[i].0 == from {
                let cur = self.remote_unconfirmed[i].1;
                let best = if cur >= frame {
                    cur
                } else {
                    frame
                };
                self.remote_unconfirmed.set(i, (from, best));
                proof {
                    lemma_merge_notice_at(orig, from, frame, i as int);
                }
                return;
            }
            i += 1;
        }
        self.remote_unconfirmed.push((from, frame));
        proof {
            lemma_merge_notice_absent(orig, from, frame);
        }
    }

    /// Encodes `message` once and sends it to the one peer `player`.
    fn send_to(&mut self, message: &crate::codec::Message, player: PlayerId, now: Nanos)
        ensures
            final(self).inv() == old(self).inv(),
            final(self).ring() == old(self).ring(),
            final(self).inputs_spec() == old(self).inputs_spec(),
            final(self).unconfirmed_spec() == old(self).unconfirmed_spec(),
            final(self).host_at_spec() == old(self).host_at_spec(),
            final(self).step_spec() == old(self).step_spec(),
            final(self).local_id_spec() == old(self).local_id_spec(),
            final(self).remote_ids() == old(self).remote_ids(),
            final(self).shared_clock == old(self).shared_clock,
            final(self).plugins == old(self).plugins,
            final(self).remote_unconfirmed == old(self).remote_unconfirmed,
            final(self).send_interval == old(self).send_interval,
    {
        let bytes = crate::codec::encode_message(message);
        self.socket.send(&bytes, player, now);
    }

    /// Encodes `message` once and sends it to every remote peer.
    fn send_all(&mut self, message: &crate::codec::Message, now: Nanos)
        ensures
            final(self).inv() == old(self).inv(),
            final(self).ring() == old(self).ring(),
            final(self).inputs_spec() == old(self).inputs_spec(),
            final(self).unconfirmed_spec() == old(self).unconfirmed_spec(),
            final(self).host_at_spec() == old(self).host_at_spec(),
            final(self).step_spec() == old(self).step_spec(),
            final(self).local_id_spec() == old(self).local_id_spec(),
            final(self).remote_ids() == old(self).remote_ids(),
            final(self).shared_clock == old(self).shared_clock,
            final(self).plugins == old(self).plugins,
            final(self).remote_unconfirmed == old(self).remote_unconfirmed,
            final(self).send_interval == old(self).send_interval,
    {
        let bytes = crate::codec::encode_message(message);
        let mut i: usize = 0;
        let n = self.remote_players.len();
        while i < n
            invariant
                i <= n,
                n == self.remote_players@.len(),
                self.inv() == old(self).inv(),
                self.ring() == old(self).ring(),
                self.inputs_spec() == old(self).inputs_spec(),
                self.unconfirmed_spec() == old(self).unconfirmed_spec(),
                self.host_at_spec() == old(self).host_at_spec(),
                self.step_spec() == old(self).step_spec(),
                self.local_id_spec() == old(self).local_id_spec(),
                self.remote_ids() == old(self).remote_ids(),
                self.shared_clock == old(self).shared_clock,
                self.plugins == old(self).plugins,
                self.remote_unconfirmed == old(self).remote_unconfirmed,
                self.send_interval == old(self).send_interval,
            decreases n - i,
        {
            let player = self.remote_players[i];
            self.socket.send(&bytes, player, now);
            i += 1;
        }
    }

    /// Drains clock traffic, then, each send interval, retransmits local
    /// inputs from each peer's confirmed horizon on and broadcasts our own
    /// horizon; finally forwards the plugins' pending messages.
    fn send_messages(&mut self, now: Nanos)
        requires
            old(self).inv(),
            now <= NOW_LIMIT,
        ensures
            final(self).inv(),
            final(self).ring() == old(self).ring(),
            final(self).unconfirmed_spec() == old(self).unconfirmed_spec(),
            final(self).host_at_spec() == old(self).host_at_spec(),
            final(self).step_spec() == old(self).step_spec(),
            final(self).local_id_spec() == old(self).local_id_spec(),
            final(self).remote_ids() == old(self).remote_ids(),
            // The retransmission timer is asked exactly once: inputs and the
            // horizon broadcast go out only when it fires, every
            // `SEND_EVERY` nanoseconds.
            final(self).send_interval.every_spec() == old(self).send_interval.every_spec(),
            final(self).send_interval.last_spec() == crate::time::interval_next(
                old(self).send_interval,
                now,
            ),
            final(self).remote_unconfirmed == old(self).remote_unconfirmed,
    {
        let mut budget: u32 = TICK_IO_BUDGET;
        while budget > 0
            invariant
                self.inv(),
                now <= NOW_LIMIT,
                self.ring() == old(self).ring(),
                self.unconfirmed_spec() == old(self).unconfirmed_spec(),
                self.host_at_spec() == old(self).host_at_spec(),
                self.step_spec() == old(self).step_spec(),
                self.local_id_spec() == old(self).local_id_spec(),
                self.remote_ids() == old(self).remote_ids(),
                self.inputs_spec() == old(self).inputs_spec(),
                self.send_interval == old(self).send_interval,
                self.remote_unconfirmed == old(self).remote_unconfirmed,
            decreases budget,
        {
            budget = budget - 1;
            match self.shared_clock.message(now) {
                None => {
                    break ;
                },
                Some((pid, m)) => {
                    self.send_to(&crate::codec::Message::Clock(m), pid, now);
                },
            }
        }
        if self.send_interval.is_time(now) {
            // Each peer gets our inputs from its confirmed horizon onward.
            let mut runc: Vec<(PlayerId, Frame)> = Vec::new();
            let mut i: usize = 0;
            let n = self.remote_unconfirmed.len();
            while i < n
                invariant
                    i <= n,
                    n == self.remote_unconfirmed@.len(),
                decreases n - i,
            {
                runc.push(self.remote_unconfirmed[i]);
                i += 1;
            }
            let ghost armed = self.send_interval;
            let mut k: usize = 0;
            while k < runc.len()
                invariant
                    k <= runc@.len(),
                    self.inv(),
                    now <= NOW_LIMIT,
                    self.ring() == old(self).ring(),
                    self.unconfirmed_spec() == old(self).unconfirmed_spec(),
                    self.host_at_spec() == old(self).host_at_spec(),
                    self.step_spec() == old(self).step_spec(),
                    self.local_id_spec() == old(self).local_id_spec(),
                    self.remote_ids() == old(self).remote_ids(),
                    self.send_interval == armed,
                    self.remote_unconfirmed == old(self).remote_unconfirmed,
                decreases runc@.len() - k,
            {
                let (player, unc) = runc[k];
                let local = self.local_id;
                let entries = self.inputs.player_since_frame(local, unc);
                self.send_to(&crate::codec::Message::Inputs(entries), player, now);
                k += 1;
            }
            let horizon = self.unconfirmed - 1;
            self.send_all(&crate::codec::Message::Unconfirmed(horizon), now);
        }
        // The plugins' own traffic.
        let ghost fired = self.send_interval;
        let mut p: usize = 0;
        while p < self.plugins.len()
            invariant
                p <= self.plugins@.len(),
                self.inv(),
                now <= NOW_LIMIT,
                self.ring() == old(self).ring(),
                self.unconfirmed_spec() == old(self).unconfirmed_spec(),
                self.host_at_spec() == old(self).host_at_spec(),
                self.step_spec() == old(self).step_spec(),
                self.local_id_spec() == old(self).local_id_spec(),
                self.remote_ids() == old(self).remote_ids(),
                self.send_interval == fired,
                self.remote_unconfirmed == old(self).remote_unconfirmed,
            decreases self.plugins@.len() - p,
        {
            let mut pg = self.plugins.remove(p);
            let msgs = pg.messages(now);
            let id_bytes = crate::plugin::plugin_id_bytes(&pg);
            self.plugins.insert(p, pg);
            let ghost np = self.plugins@.len();
            let mut m: usize = 0;
            while m < msgs.len()
                invariant
                    m <= msgs@.len(),
                    self.inv(),
                    now <= NOW_LIMIT,
                    self.plugins@.len() == np,
                    self.ring() == old(self).ring(),
                    self.unconfirmed_spec() == old(self).unconfirmed_spec(),
                    self.host_at_spec() == old(self).host_at_spec(),
                    self.step_spec() == old(self).step_spec(),
                    self.local_id_spec() == old(self).local_id_spec(),
                    self.remote_ids() == old(self).remote_ids(),
                    self.send_interval == fired,
                    self.remote_unconfirmed == old(self).remote_unconfirmed,
                decreases msgs@.len() - m,
            {
                let (to, payload) = (msgs[m].0, clone_bytes(&msgs[m].1));
                let id_copy = clone_bytes(&id_bytes);
                self.send_to(&crate::codec::Message::Plugin(id_copy, payload), to, now);
                m += 1;
            }
            p += 1;
        }
    }

    /// Drains incoming datagrams: messages from unknown peers or that fail
    /// to decode are dropped; the rest feed the input store, the peers'
    /// confirmation notices, the shared clock and the plugins.
    fn process_incoming_messages(&mut self, now: Nanos)
        requires
            old(self).inv(),
            now <= NOW_LIMIT,
        ensures
            final(self).inv(),
            final(self).ring() == old(self).ring(),
            final(self).unconfirmed_spec() == old(self).unconfirmed_spec(),
            final(self).host_at_spec() == old(self).host_at_spec(),
            final(self).step_spec() == old(self).step_spec(),
            final(self).local_id_spec() == old(self).local_id_spec(),
            final(self).remote_ids() == old(self).remote_ids(),
    {
        let mut budget: u32 = TICK_IO_BUDGET;
        while budget > 0
            invariant
                self.inv(),
                now <= NOW_LIMIT,
                self.ring() == old(self).ring(),
                self.unconfirmed_spec() == old(self).unconfirmed_spec(),
                self.host_at_spec() == old(self).host_at_spec(),
                self.step_spec() == old(self).step_spec(),
                self.local_id_spec() == old(self).local_id_spec(),
                self.remote_ids() == old(self).remote_ids(),
            decreases budget,
        {
            budget = budget - 1;
            let (from, buffer) = match self.socket.recv(now) {
                None => {
                    break ;
                },
                Some(x) => x,
            };
            if !self.is_remote(from) {
                // A datagram from an unknown peer is dropped.
                continue ;
            }
            let message = match crate::codec::decode_message(&buffer) {
                None => {
                    // Malformed datagrams are dropped.
                    continue ;
                },
                Some(m) => m,
            };
            match message {
                crate::codec::Message::Inputs(map) => {
                    let ghost pre = self.inputs;
                    self.inputs.merge_remote(from, map);
                    proof {
                        assert(storage_seeded(self.inputs, self.local_id_spec())) by {
                            assert forall|j: int|
                                0 <= j < self.inputs.players_view().len() && (
                                #[trigger] self.inputs.players_view()[j]).0
                                    == self.local_id_spec() implies has_key(
                                self.inputs.players_view()[j].1.entries_view(),
                                0,
                            ) by {
                                assert(from != self.local_id_spec());
                                assert(j < pre.players_view().len() && self.inputs.players_view()[
                                    j
                                ].0 == pre.players_view()[j].0);
                                assert(pre.players_view()[j].0 != from);
                                assert(self.inputs.players_view()[j] == pre.players_view()[j]);
                            }
                        }
                    }
                },
                crate::codec::Message::Unconfirmed(frame) => {
                    self.update_remote_unconfirmed(from, frame);
                },
                crate::codec::Message::Clock(m) => {
                    self.shared_clock.receive_message(from, m, now);
                },
                crate::codec::Message::Plugin(id, payload) => {
                    let mut p: usize = 0;
                    let mut payload = Some(payload);
                    while p < self.plugins.len()
                        invariant
                            p <= self.plugins@.len(),
                            self.inv(),
                            self.ring() == old(self).ring(),
                            self.unconfirmed_spec() == old(self).unconfirmed_spec(),
                            self.host_at_spec() == old(self).host_at_spec(),
                            self.step_spec() == old(self).step_spec(),
                            self.local_id_spec() == old(self).local_id_spec(),
                            self.remote_ids() == old(self).remote_ids(),
                            self.inputs_spec() == old(self).inputs_spec()
                                || storage_seeded(self.inputs_spec(), self.local_id_spec()),
                        decreases self.plugins@.len() - p,
                    {
                        let mut pg = self.plugins.remove(p);
                        let id_bytes = crate::plugin::plugin_id_bytes(&pg);
                        let matched = crate::inputs::bytes_eq(&id, &id_bytes);
                        if matched {
                            if let Some(pl) = payload.take() {
                                pg.receive(from, pl);
                            }
                        }
                        self.plugins.insert(p, pg);
                        p += 1;
                    }
                },
            }
        }
    }
}

impl<S: NonBlockingSocket> Session<S> {
    /// One driver tick: drains incoming datagrams, sends what is owed,
    /// captures the realtime frame's local input, roots the snapshot ring,
    /// confirms what every peer has confirmed, and steps the host toward the
    /// realtime frame.  Returns `Continue` with the handler's break value
    /// when the handler paused, `Break(())` when nothing more can be done
    /// this tick.  The confirmation horizon never moves backward.
    pub fn next_request<H: RequestHandler>(
        &mut self,
        handler: &mut H,
        now: Nanos,
    ) -> (r: ControlFlow<(), H::Break>)
        requires
            old(self).wf(),
            now <= NOW_LIMIT,
        ensures
            final(self).wf(),
            final(self).unconfirmed_spec() >= old(self).unconfirmed_spec(),
            final(self).step_spec() == old(self).step_spec(),
            final(self).local_id_spec() == old(self).local_id_spec(),
            final(self).remote_ids() == old(self).remote_ids(),
            // A break value surfaces only while the clock is serving frames:
            // it can only have come from the handler pausing a request.
            r is Continue ==> final(self).served_frame(now) is Some,
            // `Break(())` means no more work is possible this tick: the
            // clock serves no frame yet, the host caught the realtime frame
            // up, or the next frame's inputs are wholly unknown.
            r is Break ==> match final(self).served_frame(now) {
                None => true,
                Some(f) => (final(self).host_at_spec() as int / final(self).step_spec() as int)
                    >= f || crate::inputs::at_frame_spec(
                    final(self).inputs_spec().players_view(),
                    final(self).host_at_spec() as int / final(self).step_spec() as int,
                ).len() == 0,
            },
    {
        match self.next_request_flow_inverted(handler, now) {
            ControlFlow::Break(Some(m)) => ControlFlow::Continue(m),
            ControlFlow::Break(None) => ControlFlow::Break(()),
            ControlFlow::Continue(()) => ControlFlow::Break(()),
        }
    }

    /// The tick with the handler's break inverted: `Break(Some(b))` is a
    /// pause requested by the handler, `Break(None)` means the clock is not
    /// serving frames yet, `Continue` means the host caught up to realtime.
    fn next_request_flow_inverted<H: RequestHandler>(
        &mut self,
        handler: &mut H,
        now: Nanos,
    ) -> (r: ControlFlow<Option<H::Break>>)
        requires
            old(self).inv(),
            now <= NOW_LIMIT,
        ensures
            final(self).inv(),
            final(self).unconfirmed_spec() >= old(self).unconfirmed_spec(),
            final(self).step_spec() == old(self).step_spec(),
            final(self).local_id_spec() == old(self).local_id_spec(),
            final(self).remote_ids() == old(self).remote_ids(),
            r == ControlFlow::<Option<H::Break>>::Break(None) ==> final(self).served_frame(
                now,
            ) is None,
            r matches ControlFlow::Break(b) && b is Some ==> final(self).served_frame(
                now,
            ) is Some,
            r is Continue ==> match final(self).served_frame(now) {
                None => false,
                Some(f) => (final(self).host_at_spec() as int / final(self).step_spec() as int)
                    >= f || crate::inputs::at_frame_spec(
                    final(self).inputs_spec().players_view(),
                    final(self).host_at_spec() as int / final(self).step_spec() as int,
                ).len() == 0,
            },
    {
        self.process_incoming_messages(now);
        self.send_messages(now);
        let realtime = match self.clock_frame(now) {
            None => {
                return ControlFlow::Break(None);
            },
            Some(f) => f,
        };
        match self.capture_inputs(handler, realtime) {
            ControlFlow::Break(b) => {
                return ControlFlow::Break(b);
            },
            ControlFlow::Continue(()) => {},
        }
        match self.save_frame_zero(handler) {
            ControlFlow::Break(b) => {
                return ControlFlow::Break(Some(b));
            },
            ControlFlow::Continue(()) => {},
        }
        match self.advance_confirmed_horizon(handler, realtime, now) {
            ControlFlow::Break(b) => {
                return ControlFlow::Break(b);
            },
            ControlFlow::Continue(()) => {},
        }
        // Step toward realtime with whatever inputs are known.
        loop
            invariant
                self.inv(),
                self.ring().len() > 0,
                self.unconfirmed_spec() >= old(self).unconfirmed_spec(),
                self.step_spec() == old(self).step_spec(),
                self.local_id_spec() == old(self).local_id_spec(),
                self.remote_ids() == old(self).remote_ids(),
                self.served_frame(now) == Some(realtime),
                realtime <= FRAME_LIMIT,
                self.step_spec() as int * realtime as int <= 0xC000_0000_0000_0000,
            decreases self.step_spec() * realtime - self.host_at_spec(),
        {
            let hf = self.host_frame().into_frame();
            if !(hf < realtime) {
                return ControlFlow::Continue(());
            }
            proof {
                let st = self.step_spec() as int;
                let h = self.host_at_spec() as int;
                assert(h + st <= st * realtime as int && h < st * realtime as int) by (
                nonlinear_arith)
                    requires
                        st >= 1,
                        h >= 0,
                        h % st == 0,
                        h / st < realtime as int,
                ;
            }
            let step = self.step_size;
            match self.try_advance(handler, step) {
                ControlFlow::Break(b) => {
                    return ControlFlow::Break(Some(b));
                },
                ControlFlow::Continue(advanced) => {
                    if !advanced {
                        // Inputs for this frame are wholly unknown; wait for
                        // the network.
                        return ControlFlow::Continue(());
                    }
                },
            }
        }
    }
}

impl<S: NonBlockingSocket> Session<S> {
    /// The first determinism failure any plugin recorded: a frame whose
    /// confirmed state hashed differently here and at the named peer.
    pub fn determinism_failure(&self) -> (r: Option<(Frame, PlayerId)>)
        ensures
            r is Some <==> exists|p: int|
                0 <= p < self.plugins_view().len() && (
                #[trigger] self.plugins_view()[p]).mismatch_spec() is Some,
            r matches Some(m) ==> exists|p: int|
                0 <= p < self.plugins_view().len() && (
                #[trigger] self.plugins_view()[p]).mismatch_spec() == Some(m),
    {
        let mut p: usize = 0;
        while p < self.plugins.len()
            invariant
                p <= self.plugins@.len(),
                forall|q: int|
                    0 <= q < p ==> (#[trigger] self.plugins@[q]).mismatch_spec() is None,
            decreases self.plugins@.len() - p,
        {
            let m = self.plugins[p].mismatch();
            if m.is_some() {
                proof {
                    assert(self.plugins_view()[p as int].mismatch_spec() is Some);
                }
                return m;
            }
            p += 1;
        }
        None
    }
}

/// Lockstep determinism: the next confirmation is a function of the horizon
/// and the stored inputs alone.  Two sessions that agree on their horizon
/// and on every player's stored input series confirm the same frame with
/// the same aggregate inputs — so peers whose stores converged (identical
/// steps, defaults and exchanged inputs, no loss) issue `First`-confirm
/// advances with identical (frame, inputs) arguments, step by step.
pub proof fn lemma_first_confirm_deterministic<S1, S2>(a: Session<S1>, b: Session<S2>)
    requires
        a.unconfirmed_spec() == b.unconfirmed_spec(),
        a.inputs_spec().players_view().len() == b.inputs_spec().players_view().len(),
        forall|i: int|
            0 <= i < a.inputs_spec().players_view().len() ==> (
            #[trigger] a.inputs_spec().players_view()[i]).0 == (
            #[trigger] b.inputs_spec().players_view()[i]).0
                && a.inputs_spec().players_view()[i].1.entries_view()
                == b.inputs_spec().players_view()[i].1.entries_view(),
    ensures
        crate::inputs::at_frame_spec(
            a.inputs_spec().players_view(),
            a.unconfirmed_spec() - 1,
        ) == crate::inputs::at_frame_spec(
            b.inputs_spec().players_view(),
            b.unconfirmed_spec() - 1,
        ),
{
    crate::inputs::lemma_at_frame_deterministic(
        a.inputs_spec().players_view(),
        b.inputs_spec().players_view(),
        a.unconfirmed_spec() - 1,
    );
}

/// Builds a session; the construction logic lives in the builder module.
pub use builder::SessionBuilder;

} // verus!
