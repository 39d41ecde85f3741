//! Session plugins: per-confirmed-frame observers that may exchange their
//! own side-channel messages with peers.
//!
//! One plugin ships with the library: a determinism guard that hashes every
//! locally confirmed state, swaps the newest (frame, hash) pair with each
//! peer, and records the first disagreement it sees.

use vstd::prelude::*;

verus! {

use crate::Frame;
use crate::Nanos;
use crate::PlayerId;
use crate::codec::parse_u32;
use crate::codec::parse_u64;
use crate::codec::u32le;
use crate::codec::u64le;
use crate::time::Interval;

/// A per-confirmed-frame observer attached to a session.
///
/// Plugins see every confirmed frame's serialized state, may queue messages
/// for peers, and receive the payloads peers addressed to their id.
pub trait SessionPlugin {
    fn id(&self) -> String;

    fn on_confirmed_frame(&mut self, frame: Frame, serialized: &Vec<u8>, now: Nanos);

    fn messages(&mut self, now: Nanos) -> Vec<(PlayerId, Vec<u8>)>;

    fn receive(&mut self, from: PlayerId, message: Vec<u8>);
}

/// The bytes of a string in the platform's usual encoding.
pub uninterp spec fn utf8_of(s: Seq<char>) -> Seq<u8>;

/// Relies on String::into_bytes: the UTF-8 bytes of the string, a function of
/// its characters alone.
#[verifier::external_body]
fn string_bytes(s: String) -> (r: Vec<u8>)
    ensures
        r@ == utf8_of(s@),
{
    s.into_bytes()
}

/// The 64-bit checksum of a byte string, as seahash computes it.
pub uninterp spec fn seahash_of(b: Seq<u8>) -> u64;

/// Relies on seahash::hash: a stable checksum that depends on the bytes
/// alone.
#[verifier::external_body]
fn seahash_bytes(b: &Vec<u8>) -> (r: u64)
    ensures
        r == seahash_of(b@),
{
    seahash::hash(b.as_slice())
}

#[verifier::external_type_specification]
#[verifier::external_body]
#[verifier::reject_recursive_types(K)]
#[verifier::reject_recursive_types(V)]
#[verifier::reject_recursive_types(S)]
pub struct ExLruCache<K, V, S>(lru::LruCache<K, V, S>);

#[verifier::external_type_specification]
#[verifier::external_body]
pub struct ExLruDefaultHasher(lru::DefaultHasher);

/// What a frame-to-checksum cache holds.
pub uninterp spec fn lru_contents(c: lru::LruCache<Frame, u64>) -> Map<Frame, u64>;

/// A checksum cache with nothing in it.
pub open spec fn empty_checksums() -> Map<Frame, u64> {
    Map::empty()
}

/// The capacity the cache was created with.
pub uninterp spec fn lru_cap(c: lru::LruCache<Frame, u64>) -> int;

/// Relies on lru::LruCache::new: a cache of the given capacity holding
/// nothing.
#[verifier::external_body]
fn lru_new(cap: usize) -> (r: lru::LruCache<Frame, u64>)
    requires
        cap >= 1,
    ensures
        lru_contents(r) == empty_checksums(),
        lru_cap(r) == cap,
{
    lru::LruCache::new(std::num::NonZeroUsize::new(cap).unwrap())
}

/// Relies on lru::LruCache::put: binds the key to the value; when the cache
/// is full and the key is new, some one entry is evicted, least recently
/// used first.
#[verifier::external_body]
fn lru_put(c: &mut lru::LruCache<Frame, u64>, k: Frame, v: u64)
    ensures
        lru_cap(*final(c)) == lru_cap(*old(c)),
        lru_contents(*final(c)).contains_pair(k, v),
        forall|k2: Frame, v2: u64|
            lru_contents(*final(c)).contains_pair(k2, v2) ==> (k2 == k && v2 == v)
                || lru_contents(*old(c)).contains_pair(k2, v2),
        (lru_contents(*old(c)).dom().len() < lru_cap(*old(c)) || lru_contents(*old(c)).contains_key(
            k,
        )) ==> lru_contents(*final(c)) == lru_contents(*old(c)).insert(k, v),
{
    c.put(k, v);
}

/// Relies on lru::LruCache::get: the bound value, if any; only recency
/// bookkeeping changes.
#[verifier::external_body]
fn lru_get(c: &mut lru::LruCache<Frame, u64>, k: Frame) -> (r: Option<u64>)
    ensures
        lru_contents(*final(c)) == lru_contents(*old(c)),
        lru_cap(*final(c)) == lru_cap(*old(c)),
        r == if lru_contents(*old(c)).contains_key(k) {
            Some(lru_contents(*old(c))[k])
        } else {
            None::<u64>
        },
{
    c.get(&k).copied()
}

/// Relies on lru::LruCache::pop: removes and returns the key's binding.
#[verifier::external_body]
fn lru_pop(c: &mut lru::LruCache<Frame, u64>, k: Frame) -> (r: Option<u64>)
    ensures
        lru_contents(*final(c)) == lru_contents(*old(c)).remove(k),
        lru_cap(*final(c)) == lru_cap(*old(c)),
        r == if lru_contents(*old(c)).contains_key(k) {
            Some(lru_contents(*old(c))[k])
        } else {
            None::<u64>
        },
{
    c.pop(&k)
}

/// Relies on lru::LruCache::iter: yields each held (key, value) binding
/// exactly once.
#[verifier::external_body]
fn lru_entries(c: &lru::LruCache<Frame, u64>) -> (r: Vec<(Frame, u64)>)
    ensures
        forall|i: int|
            0 <= i < r@.len() ==> lru_contents(*c).contains_pair(
                (#[trigger] r@[i]).0,
                r@[i].1,
            ),
        forall|k: Frame| #[trigger] lru_contents(*c).contains_key(k) ==> exists|i: int|
            0 <= i < r@.len() && (#[trigger] r@[i]).0 == k,
{
    c.iter().map(|e: (&Frame, &u64)| (*e.0, *e.1)).collect()
}

/// The newest cached pair: the entry with the largest frame, if any.
fn lru_newest(c: &lru::LruCache<Frame, u64>) -> (r: Option<(Frame, u64)>)
    ensures
        r is None ==> lru_contents(*c) == empty_checksums(),
        r matches Some((f, cs)) ==> lru_contents(*c).contains_pair(f, cs) && forall|k: Frame|
            lru_contents(*c).contains_key(k) ==> k <= f,
{
    let entries = lru_entries(c);
    if entries.len() == 0 {
        proof {
            assert forall|k: Frame| !(#[trigger] lru_contents(*c).contains_key(k)) by {}
            assert(lru_contents(*c) =~= empty_checksums());
        }
        return None;
    }
    let mut best: usize = 0;
    let mut i: usize = 1;
    while i < entries.len()
        invariant
            best < i <= entries@.len(),
            forall|j: int| 0 <= j < i ==> (#[trigger] entries@[j]).0 <= entries@[best as int].0,
        decreases entries@.len() - i,
    {
        if entries[i].0 > entries[best].0 {
            best = i;
        }
        i += 1;
    }
    let (f, cs) = entries[best];
    proof {
        assert(lru_contents(*c).contains_pair(f, cs));
        assert forall|k: Frame| lru_contents(*c).contains_key(k) implies k <= f by {
            let j = choose|j: int| 0 <= j < entries@.len() && (#[trigger] entries@[j]).0 == k;
        }
    }
    Some((f, cs))
}

/// How many (frame, checksum) pairs each side of the comparison retains.
pub const CHECKSUM_CACHE_SIZE: usize = 1024;

/// Nanoseconds between checksum broadcasts.
pub const CHECKSUM_SEND_EVERY: u64 = 500_000_000;

/// The determinism guard's wire payload.
#[derive(Debug, PartialEq, Eq, Clone, Copy, Structural)]
pub enum Message {
    /// The sender's checksum of its state at the frame.
    FrameChecksum(Frame, u64),
}

/// Whether a payload is the exact encoding of the checksum report (f, cs).
pub open spec fn decode_ok(payload: Seq<u8>, f: Frame, cs: u64) -> bool {
    payload == plugin_msg_bytes(Message::FrameChecksum(f, cs))
}

/// Encodes a checksum report: variant tag, frame, checksum.
pub open spec fn plugin_msg_bytes(m: Message) -> Seq<u8> {
    match m {
        Message::FrameChecksum(f, cs) => u32le(0) + u32le(f) + u64le(cs),
    }
}

/// The encoding of a checksum report parses back to its fields.
proof fn lemma_plugin_round_trip(f: Frame, cs: u64)
    ensures
        ({
            let s = plugin_msg_bytes(Message::FrameChecksum(f, cs));
            &&& s.len() == 16
            &&& parse_u32(s, 0) == Some((0u32, 4int))
            &&& parse_u32(s, 4) == Some((f, 8int))
            &&& parse_u64(s, 8) == Some((cs, 16int))
        }),
{
    let s = plugin_msg_bytes(Message::FrameChecksum(f, cs));
    assert(s.subrange(0, 4) =~= u32le(0u32));
    crate::codec::lemma_parse_u32_enc(s, 0, 0u32);
    assert(s.subrange(4, 8) =~= u32le(f));
    crate::codec::lemma_parse_u32_enc(s, 4, f);
    assert(s.subrange(8, 16) =~= u64le(cs));
    crate::codec::lemma_parse_u64_enc(s, 8, cs);
}

/// Encodes a checksum report.
pub fn encode_plugin_message(m: &Message) -> (r: Vec<u8>)
    ensures
        r@ == plugin_msg_bytes(*m),
{
    let mut out: Vec<u8> = Vec::new();
    match m {
        Message::FrameChecksum(f, cs) => {
            crate::codec::put_u32(&mut out, 0);
            crate::codec::put_u32(&mut out, *f);
            crate::codec::put_u64(&mut out, *cs);
            proof {
                assert(out@ =~= plugin_msg_bytes(*m));
            }
        },
    }
    out
}

/// Decodes a checksum report; `None` exactly for bytes that are no report's
/// encoding.
pub fn decode_plugin_message(buf: &Vec<u8>) -> (r: Option<Message>)
    ensures
        r is None ==> forall|f: Frame, cs: u64| !(#[trigger] decode_ok(buf@, f, cs)),
        r matches Some(m) ==> match m {
            Message::FrameChecksum(f, cs) => {
                &&& parse_u32(buf@, 0) matches Some((tag, p1)) && tag == 0 && (parse_u32(
                    buf@,
                    p1,
                ) matches Some((f2, p2)) && f2 == f && (parse_u64(buf@, p2) matches Some(
                    (cs2, p3),
                ) && cs2 == cs && p3 == buf@.len()))
            },
        },
{
    let (tag, p1) = match crate::codec::get_u32(buf, 0) {
        None => {
            proof {
                assert forall|f2: Frame, cs2: u64| !(#[trigger] decode_ok(buf@, f2, cs2)) by {
                    if decode_ok(buf@, f2, cs2) {
                        lemma_plugin_round_trip(f2, cs2);
                    }
                }
            }
            return None;
        },
        Some(x) => x,
    };
    if tag != 0 {
        proof {
            assert forall|f2: Frame, cs2: u64| !(#[trigger] decode_ok(buf@, f2, cs2)) by {
                if decode_ok(buf@, f2, cs2) {
                    lemma_plugin_round_trip(f2, cs2);
                }
            }
        }
        return None;
    }
    let (f, p2) = match crate::codec::get_u32(buf, p1) {
        None => {
            proof {
                assert forall|f2: Frame, cs2: u64| !(#[trigger] decode_ok(buf@, f2, cs2)) by {
                    if decode_ok(buf@, f2, cs2) {
                        lemma_plugin_round_trip(f2, cs2);
                    }
                }
            }
            return None;
        },
        Some(x) => x,
    };
    let (cs, p3) = match crate::codec::get_u64(buf, p2) {
        None => {
            proof {
                assert forall|f2: Frame, cs2: u64| !(#[trigger] decode_ok(buf@, f2, cs2)) by {
                    if decode_ok(buf@, f2, cs2) {
                        lemma_plugin_round_trip(f2, cs2);
                    }
                }
            }
            return None;
        },
        Some(x) => x,
    };
    if p3 == buf.len() {
        Some(Message::FrameChecksum(f, cs))
    } else {
        proof {
            assert forall|f2: Frame, cs2: u64| !(#[trigger] decode_ok(buf@, f2, cs2)) by {
                if decode_ok(buf@, f2, cs2) {
                    lemma_plugin_round_trip(f2, cs2);
                }
            }
        }
        None
    }
}

/// Warns when a peer's checksum for a confirmed frame disagrees with ours.
///
/// Keeps a bounded cache of local (frame, checksum) pairs and one per peer;
/// on every confirmed frame it stores the local hash and pops any matching
/// peer entry, recording the first disagreement.  Twice a second it
/// broadcasts its newest pair to all peers.
pub struct WarnRemoteMismatchedChecksum {
    addrs: Vec<PlayerId>,
    checksums: lru::LruCache<Frame, u64>,
    remote_checksums: Vec<(PlayerId, lru::LruCache<Frame, u64>)>,
    send_every: Interval,
    mismatch: Option<(Frame, PlayerId)>,
}

impl WarnRemoteMismatchedChecksum {
    /// A guard that talks to the given peers.
    pub fn with_addrs(addrs: Vec<PlayerId>) -> (r: Self)
        ensures
            r.mismatch_spec() is None,
    {
        WarnRemoteMismatchedChecksum {
            addrs,
            checksums: lru_new(CHECKSUM_CACHE_SIZE),
            remote_checksums: Vec::new(),
            send_every: Interval::new(CHECKSUM_SEND_EVERY),
            mismatch: None,
        }
    }

    /// The first (frame, peer) whose checksums disagreed, if any: a
    /// determinism failure between this session and that peer.
    pub closed spec fn mismatch_spec(self) -> Option<(Frame, PlayerId)> {
        self.mismatch
    }

    /// The locally computed (frame, checksum) pairs currently cached.
    pub closed spec fn local_checksums(self) -> Map<Frame, u64> {
        lru_contents(self.checksums)
    }

    /// Whether some peer's cache currently holds the pair (frame, h).
    pub closed spec fn remote_has(self, frame: Frame, h: u64) -> bool {
        exists|i: int|
            0 <= i < self.remote_checksums@.len() && lru_contents(
                (#[trigger] self.remote_checksums@[i]).1,
            ).contains_pair(frame, h)
    }

    /// The peers the guard broadcasts to.
    pub closed spec fn addrs_view(self) -> Seq<PlayerId> {
        self.addrs@
    }

    /// The first recorded determinism failure, if any.
    pub fn mismatch(&self) -> (r: Option<(Frame, PlayerId)>)
        ensures
            r == self.mismatch_spec(),
    {
        self.mismatch
    }

    /// Compares our checksum for `frame` against every peer entry for it,
    /// consuming the peer entries.
    fn check_frame_match(&mut self, frame: Frame)
        ensures
            old(self).mismatch_spec() is Some ==> final(self).mismatch_spec() == old(self).mismatch_spec(),
            final(self).local_checksums() == old(self).local_checksums(),
            final(self).addrs_view() == old(self).addrs_view(),
            // A peer entry for this frame that disagrees with our cached
            // checksum records the failure.
            old(self).local_checksums().contains_key(frame) ==> forall|h: u64|
                #[trigger] old(self).remote_has(frame, h) && h != old(self).local_checksums()[
                    frame
                ] ==> final(self).mismatch_spec() is Some,
    {
        let ours = match lru_get(&mut self.checksums, frame) {
            Some(c) => c,
            None => {
                proof {
                    assert(!old(self).local_checksums().contains_key(frame));
                }
                return;
            },
        };
        let ghost orig = self.remote_checksums@;
        let mut i: usize = 0;
        while i < self.remote_checksums.len()
            invariant
                i <= self.remote_checksums@.len(),
                self.remote_checksums@.len() == orig.len(),
                old(self).mismatch_spec() is Some ==> self.mismatch == old(self).mismatch_spec(),
                lru_contents(self.checksums) == old(self).local_checksums(),
                self.addrs == old(self).addrs,
                ours == old(self).local_checksums()[frame],
                old(self).local_checksums().contains_key(frame),
                forall|j: int|
                    i <= j < orig.len() ==> (#[trigger] self.remote_checksums@[j]) == orig[j],
                forall|j: int, h: u64|
                    0 <= j < i && #[trigger] lru_contents(orig[j].1).contains_pair(frame, h)
                        && h != ours ==> self.mismatch is Some,
            decreases self.remote_checksums@.len() - i,
        {
            let pid = self.remote_checksums[i].0;
            let ghost pre_seq = self.remote_checksums@;
            let (p, mut cache) = self.remote_checksums.remove(i);
            let ghost pre_cache = cache;
            let theirs = lru_pop(&mut cache, frame);
            self.remote_checksums.insert(i, (p, cache));
            proof {
                assert(self.remote_checksums@ =~= pre_seq.update(i as int, (p, cache)));
                assert(self.remote_checksums@[i as int] == (p, cache));
                assert forall|j: int| i < j < orig.len() implies (
                #[trigger] self.remote_checksums@[j]) == orig[j] by {
                    assert(self.remote_checksums@[j] == pre_seq[j]);
                }
            }
            if let Some(theirs) = theirs {
                if theirs != ours && self.mismatch.is_none() {
                    self.mismatch = Some((frame, pid));
                }
            }
            proof {
                assert forall|j: int, h: u64|
                    0 <= j < i + 1 && #[trigger] lru_contents(orig[j].1).contains_pair(
                        frame,
                        h,
                    ) && h != ours implies self.mismatch is Some by {
                    if j == i {
                        assert(lru_contents(pre_cache).contains_pair(frame, h));
                    }
                }
            }
            i += 1;
        }
        proof {
            assert forall|h: u64|
                #[trigger] old(self).remote_has(frame, h) && h != ours implies self.mismatch
                is Some by {
                let j = choose|j: int|
                    0 <= j < orig.len() && #[trigger] lru_contents(orig[j].1).contains_pair(
                        frame,
                        h,
                    );
            }
        }
    }

    /// The pending broadcast: every peer gets our newest (frame, checksum)
    /// pair, at most once per send interval.
    /// The pending broadcast: once per send interval, every peer is owed the
    /// newest cached (frame, checksum) pair; otherwise, or with nothing
    /// cached, nothing.
    fn typed_messages(&mut self, now: Nanos) -> (r: Vec<(PlayerId, Message)>)
        ensures
            final(self).local_checksums() == old(self).local_checksums(),
            final(self).addrs_view() == old(self).addrs_view(),
            final(self).mismatch_spec() == old(self).mismatch_spec(),
            r@.len() == 0 || r@.len() == old(self).addrs_view().len(),
            r@.len() > 0 ==> exists|f: Frame|
                {
                    &&& #[trigger] old(self).local_checksums().contains_key(f)
                    &&& (forall|k: Frame|
                        old(self).local_checksums().contains_key(k) ==> k <= f)
                    &&& forall|i: int|
                        0 <= i < r@.len() ==> (#[trigger] r@[i]) == (
                        old(self).addrs_view()[i],
                        Message::FrameChecksum(f, old(self).local_checksums()[f]),
                        )
                },
    {
        if !self.send_every.is_time(now) {
            return Vec::new();
        }
        let (frame, checksum) = match lru_newest(&self.checksums) {
            Some(l) => l,
            None => {
                return Vec::new();
            },
        };
        proof {
            assert(old(self).local_checksums().contains_key(frame));
            assert(old(self).local_checksums()[frame] == checksum);
        }
        let mut out: Vec<(PlayerId, Message)> = Vec::new();
        let mut i: usize = 0;
        while i < self.addrs.len()
            invariant
                i <= self.addrs@.len(),
                self.checksums == old(self).checksums,
                self.addrs == old(self).addrs,
                self.mismatch == old(self).mismatch,
                out@.len() == i,
                lru_contents(self.checksums).contains_pair(frame, checksum),
                forall|k: Frame| lru_contents(self.checksums).contains_key(k) ==> k <= frame,
                forall|j: int|
                    0 <= j < i ==> (#[trigger] out@[j]) == (
                    self.addrs@[j],
                    Message::FrameChecksum(frame, checksum),
                    ),
            decreases self.addrs@.len() - i,
        {
            out.push((self.addrs[i], Message::FrameChecksum(frame, checksum)));
            i += 1;
        }
        out
    }
}

impl SessionPlugin for WarnRemoteMismatchedChecksum {
    fn id(&self) -> String {
        "warn_remote_mismatched_checksum".to_string()
    }

    fn on_confirmed_frame(&mut self, frame: Frame, serialized: &Vec<u8>, _now: Nanos)
        ensures
            // The local hash is cached; an already-reported peer hash that
            // disagrees records the failure; a recorded failure never goes
            // away.
            final(self).local_checksums().contains_pair(frame, seahash_of(serialized@)),
            old(self).mismatch_spec() is Some ==> final(self).mismatch_spec() == old(self).mismatch_spec(),
            forall|h: u64|
                #[trigger] old(self).remote_has(frame, h) && h != seahash_of(serialized@)
                    ==> final(self).mismatch_spec() is Some,
    {
        let checksum = seahash_bytes(serialized);
        lru_put(&mut self.checksums, frame, checksum);
        proof {
            assert(self.local_checksums().contains_pair(frame, checksum));
            assert(self.local_checksums()[frame] == checksum);
            assert forall|h: u64| #[trigger] old(self).remote_has(frame, h) implies self.remote_has(
                frame,
                h,
            ) by {
                let i = choose|i: int|
                    0 <= i < old(self).remote_checksums@.len() && lru_contents(
                        (#[trigger] old(self).remote_checksums@[i]).1,
                    ).contains_pair(frame, h);
                assert(self.remote_checksums@[i] == old(self).remote_checksums@[i]);
            }
        }
        self.check_frame_match(frame);
        proof {
            assert(self.local_checksums().contains_pair(frame, checksum));
            assert(checksum == seahash_of(serialized@));
        }
    }

    fn messages(&mut self, now: Nanos) -> Vec<(PlayerId, Vec<u8>)> {
        let typed = self.typed_messages(now);
        let mut out: Vec<(PlayerId, Vec<u8>)> = Vec::new();
        let mut i: usize = 0;
        while i < typed.len()
            invariant
                i <= typed@.len(),
            decreases typed@.len() - i,
        {
            out.push((typed[i].0, encode_plugin_message(&typed[i].1)));
            i += 1;
        }
        out
    }

    fn receive(&mut self, from: PlayerId, message: Vec<u8>)
        ensures
            // A recorded failure never goes away; a decoded report that
            // disagrees with our cached checksum for its frame records one.
            old(self).mismatch_spec() is Some ==> final(self).mismatch_spec() == old(self).mismatch_spec(),
            final(self).local_checksums() == old(self).local_checksums(),
            forall|f: Frame, cs: u64|
                #[trigger] decode_ok(message@, f, cs) && old(self).local_checksums().contains_key(
                    f,
                ) && old(self).local_checksums()[f] != cs ==> final(self).mismatch_spec() is Some,
    {
        let ghost payload = message@;
        let message = match decode_plugin_message(&message) {
            Some(m) => m,
            None => {
                return;
            },
        };
        match message {
            Message::FrameChecksum(frame, checksum) => {
                let mut i: usize = 0;
                let n = self.remote_checksums.len();
                while i < n && self.remote_checksums[i].0 != from
                    invariant
                        i <= n,
                        n == self.remote_checksums@.len(),
                        *self == *old(self),
                    decreases n - i,
                {
                    i += 1;
                }
                if i >= self.remote_checksums.len() {
                    self.remote_checksums.push((from, lru_new(CHECKSUM_CACHE_SIZE)));
                }
                let (p, mut cache) = self.remote_checksums.remove(i);
                lru_put(&mut cache, frame, checksum);
                self.remote_checksums.insert(i, (p, cache));
                proof {
                    assert(self.remote_checksums@[i as int].1 == cache);
                    assert(lru_contents(cache).contains_pair(frame, checksum));
                    assert(self.remote_has(frame, checksum));
                    assert(self.checksums == old(self).checksums);
                }
                self.check_frame_match(frame);
                proof {
                    assert forall|f: Frame, cs: u64|
                        #[trigger] decode_ok(payload, f, cs) && old(self).local_checksums().contains_key(f) && old(self).local_checksums()[f]
                            != cs implies self.mismatch_spec() is Some by {
                        lemma_plugin_round_trip(f, cs);
                        assert(f == frame && cs == checksum);
                    }
                }
            },
        }
    }
}

/// The wire identifier of a plugin: its id string's bytes.
pub fn plugin_id_bytes(p: &WarnRemoteMismatchedChecksum) -> Vec<u8> {
    string_bytes(p.id())
}

} // verus!
