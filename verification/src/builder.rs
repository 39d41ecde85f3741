//! Session construction.
//!
//! Every required option must be provided; a missing one fails construction
//! with a readable message, and no session is produced.

use vstd::prelude::*;

verus! {

use crate::PlayerId;
use crate::Nanos;
use crate::Session;
use crate::SerializedInput;
use crate::inputs::InputStorage;
use crate::plugin::WarnRemoteMismatchedChecksum;
use crate::socket::NonBlockingSocket;
use crate::time::Interval;
use crate::time::NOW_LIMIT;
use crate::time::SharedClock;

/// Assigns peer ids by position in the remote list, skipping the local id,
/// so every participant derives the same mapping from the shared order.
pub fn assign_player_ids(local_id: PlayerId, n_remotes: usize) -> (r: Vec<PlayerId>)
    requires
        n_remotes <= 0xFFFE,
    ensures
        r@.len() == n_remotes,
        forall|i: int| 0 <= i < r@.len() ==> (#[trigger] r@[i]) != local_id,
        forall|i: int|
            0 <= i < r@.len() ==> (#[trigger] r@[i]) == if i >= local_id {
                (i + 1) as PlayerId
            } else {
                i as PlayerId
            },
{
    let mut r: Vec<PlayerId> = Vec::new();
    let mut i: usize = 0;
    while i < n_remotes
        invariant
            i <= n_remotes,
            n_remotes <= 0xFFFE,
            r@.len() == i,
            forall|j: int|
                0 <= j < i ==> (#[trigger] r@[j]) == if j >= local_id {
                    (j + 1) as PlayerId
                } else {
                    j as PlayerId
                },
            forall|j: int| 0 <= j < i ==> (#[trigger] r@[j]) != local_id,
        decreases n_remotes - i,
    {
        let id: PlayerId = if i >= local_id as usize {
            (i + 1) as PlayerId
        } else {
            i as PlayerId
        };
        r.push(id);
        i += 1;
    }
    r
}

/// Collects the options a session needs, then starts it.
pub struct SessionBuilder<S> {
    remote_count: usize,
    local_player: Option<PlayerId>,
    step_size: Option<Nanos>,
    default_inputs: Option<SerializedInput>,
    socket: Option<S>,
}

impl<S: NonBlockingSocket> SessionBuilder<S> {
    /// The configured remote-player count.
    pub closed spec fn remote_count_spec(self) -> usize {
        self.remote_count
    }

    /// The configured local player id, if set.
    pub closed spec fn local_player_spec(self) -> Option<PlayerId> {
        self.local_player
    }

    /// The configured step, if set.
    pub closed spec fn step_size_spec(self) -> Option<Nanos> {
        self.step_size
    }

    /// The configured default input blob, if set.
    pub closed spec fn default_inputs_spec(self) -> Option<SerializedInput> {
        self.default_inputs
    }

    /// Whether a transport was provided.
    pub closed spec fn has_socket(self) -> bool {
        self.socket is Some
    }

    /// A builder with nothing configured.
    pub fn new() -> (r: Self)
        ensures
            r.remote_count_spec() == 0,
            r.local_player_spec() is None,
            r.step_size_spec() is None,
            r.default_inputs_spec() is None,
            !r.has_socket(),
    {
        SessionBuilder {
            remote_count: 0,
            local_player: None,
            step_size: None,
            default_inputs: None,
            socket: None,
        }
    }

    /// How many remote peers take part.  Their ids follow from their
    /// position, skipping the local id.
    pub fn remote_players(self, count: usize) -> (r: Self)
        ensures
            r.remote_count_spec() == count,
            r.local_player_spec() == self.local_player_spec(),
            r.step_size_spec() == self.step_size_spec(),
            r.default_inputs_spec() == self.default_inputs_spec(),
            r.has_socket() == self.has_socket(),
    {
        let mut b = self;
        b.remote_count = count;
        b
    }

    /// The local participant's id.
    pub fn local_player(self, index: PlayerId) -> (r: Self)
        ensures
            r.local_player_spec() == Some(index),
            r.remote_count_spec() == self.remote_count_spec(),
            r.step_size_spec() == self.step_size_spec(),
            r.default_inputs_spec() == self.default_inputs_spec(),
            r.has_socket() == self.has_socket(),
    {
        let mut b = self;
        b.local_player = Some(index);
        b
    }

    /// The fixed logical step, in nanoseconds.
    pub fn step_size(self, size: Nanos) -> (r: Self)
        ensures
            r.step_size_spec() == Some(size),
            r.remote_count_spec() == self.remote_count_spec(),
            r.local_player_spec() == self.local_player_spec(),
            r.default_inputs_spec() == self.default_inputs_spec(),
            r.has_socket() == self.has_socket(),
    {
        let mut b = self;
        b.step_size = Some(size);
        b
    }

    /// The input blob every player is assumed to hold at frame 0.
    pub fn default_inputs(self, inputs: SerializedInput) -> (r: Self)
        ensures
            r.default_inputs_spec() == Some(inputs),
            r.remote_count_spec() == self.remote_count_spec(),
            r.local_player_spec() == self.local_player_spec(),
            r.step_size_spec() == self.step_size_spec(),
            r.has_socket() == self.has_socket(),
    {
        let mut b = self;
        b.default_inputs = Some(inputs);
        b
    }

    /// The datagram transport to the peers.
    pub fn with_socket(self, socket: S) -> (r: Self)
        ensures
            r.has_socket(),
            r.remote_count_spec() == self.remote_count_spec(),
            r.local_player_spec() == self.local_player_spec(),
            r.step_size_spec() == self.step_size_spec(),
            r.default_inputs_spec() == self.default_inputs_spec(),
    {
        let mut b = self;
        b.socket = Some(socket);
        b
    }

    /// Whether the configuration is complete and in range: every required
    /// option present, the step positive and representable, the peer count
    /// within the id space.
    pub open spec fn config_ok(self) -> bool {
        &&& self.local_player_spec() is Some
        &&& self.default_inputs_spec() is Some
        &&& self.step_size_spec() matches Some(st) && 1 <= st <= NOW_LIMIT
        &&& self.has_socket()
        &&& self.remote_count_spec() <= 0xFFFE
    }

    /// Builds the session exactly when the configuration is complete and in
    /// range, otherwise reports the missing or unusable option.  A fresh
    /// session starts at the origin: nothing executed, nothing saved, the
    /// horizon at frame 1, and peer ids assigned by position.
    pub fn start(self) -> (r: Result<Session<S>, &'static str>)
        ensures
            r is Ok <==> self.config_ok(),
            r matches Ok(s) ==> {
                &&& s.wf()
                &&& s.unconfirmed_spec() == 1
                &&& s.host_at_spec() == 0
                &&& s.ring().len() == 0
                &&& Some(s.step_spec()) == self.step_size_spec()
                &&& Some(s.local_id_spec()) == self.local_player_spec()
                &&& s.inputs_spec().players_view().len() == 0
                &&& Some(s.inputs_spec().default_view()) == match self.default_inputs_spec() {
                    None => None::<Seq<u8>>,
                    Some(d) => Some(d@),
                }
                &&& s.remote_ids().len() == self.remote_count_spec()
                &&& forall|i: int|
                    0 <= i < s.remote_ids().len() ==> (#[trigger] s.remote_ids()[i]) == if i
                        >= self.local_player_spec()->Some_0 {
                        (i + 1) as PlayerId
                    } else {
                        i as PlayerId
                    }
            },
    {
        let local_id = match self.local_player {
            Some(l) => l,
            None => {
                return Err("must provide local_player");
            },
        };
        let default_inputs = match self.default_inputs {
            Some(d) => d,
            None => {
                return Err("must provide default_inputs");
            },
        };
        let step_size = match self.step_size {
            Some(s) => s,
            None => {
                return Err("must provide step_size");
            },
        };
        if step_size < 1 || step_size > NOW_LIMIT {
            return Err("step_size out of range");
        }
        let socket = match self.socket {
            Some(s) => s,
            None => {
                return Err("must provide socket");
            },
        };
        if self.remote_count > 0xFFFE {
            return Err("too many remote players");
        }
        let remote_players = assign_player_ids(local_id, self.remote_count);
        let shared_clock = SharedClock::among_remotes(&remote_players);
        let mut plugins: Vec<WarnRemoteMismatchedChecksum> = Vec::new();
        let plugin_peers = assign_player_ids(local_id, self.remote_count);
        plugins.push(WarnRemoteMismatchedChecksum::with_addrs(plugin_peers));
        proof {
            assert(shared_clock.remote_ids() =~= remote_players@);
        }
        Ok(
            Session {
                confirmed_states: Vec::new(),
                inputs: InputStorage::with_default(default_inputs),
                step_size,
                local_id,
                remote_players,
                socket,
                host_at: 0,
                unconfirmed: 1,
                remote_unconfirmed: Vec::new(),
                send_interval: Interval::new(crate::SEND_EVERY),
                shared_clock,
                plugins,
            },
        )
    }
}

} // verus!
