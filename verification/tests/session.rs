use std::cell::RefCell;
use std::collections::VecDeque;
use std::ops::ControlFlow;
use std::rc::Rc;

use rbrb::Player;
use rbrb::SessionBuilder;
use rbrb::request_handler::Confirmation;
use rbrb::request_handler::Request;
use rbrb::request_handler::RequestHandler;
use rbrb::request_handler::Response;
use rbrb::socket::NonBlockingSocket;
use rbrb::socket::SocketStats;

const MS: u64 = 1_000_000;
const STEP: u64 = 16 * MS;

/// A transport that drops everything: a peerless session.
struct NullSocket;

impl NonBlockingSocket for NullSocket {
    fn send(&mut self, _message: &Vec<u8>, _addr: u16, _now: u64) {}

    fn recv(&mut self, _now: u64) -> Option<(u16, Vec<u8>)> {
        None
    }

    fn stats(&self) -> Option<SocketStats> {
        None
    }
}

type Queue = Rc<RefCell<VecDeque<(u16, Vec<u8>)>>>;

/// An in-memory lossless datagram link between two peers.
struct ChanSocket {
    my_id: u16,
    outbox: Queue,
    inbox: Queue,
}

impl NonBlockingSocket for ChanSocket {
    fn send(&mut self, message: &Vec<u8>, _addr: u16, _now: u64) {
        self.outbox.borrow_mut().push_back((self.my_id, message.clone()));
    }

    fn recv(&mut self, _now: u64) -> Option<(u16, Vec<u8>)> {
        self.inbox.borrow_mut().pop_front()
    }

    fn stats(&self) -> Option<SocketStats> {
        None
    }
}

/// The increment-counter sample game: the state is one byte, every advance
/// adds the sum of all players' input bytes.
struct CounterHost {
    value: u8,
    next_input: u8,
    saves: usize,
    loads: usize,
    captures: usize,
    confirmed: Vec<(u32, Vec<(u16, u8)>)>,
    advances: usize,
}

impl CounterHost {
    fn new() -> Self {
        CounterHost {
            value: 0,
            next_input: 0,
            saves: 0,
            loads: 0,
            captures: 0,
            confirmed: Vec::new(),
            advances: 0,
        }
    }
}

impl RequestHandler for CounterHost {
    type Break = ();

    fn handle_request(&mut self, request: Request) -> ControlFlow<(), Response> {
        match request {
            Request::SaveTo => {
                self.saves += 1;
                ControlFlow::Continue(Response::Saved(vec![self.value]))
            }
            Request::LoadFrom(state) => {
                self.loads += 1;
                self.value = state[0];
                ControlFlow::Continue(Response::Handled)
            }
            Request::CaptureLocalInput => {
                self.captures += 1;
                ControlFlow::Continue(Response::Captured(vec![self.next_input]))
            }
            Request::Advance { inputs, confirmed, current_frame, .. } => {
                self.advances += 1;
                let mut per_player: Vec<(u16, u8)> = inputs
                    .iter()
                    .iter()
                    .map(|(p, c)| (*p, c.clone().into_inner()[0]))
                    .collect();
                per_player.sort();
                for &(_, v) in &per_player {
                    self.value = self.value.wrapping_add(v);
                }
                if confirmed == Confirmation::First {
                    self.confirmed.push((current_frame, per_player));
                }
                ControlFlow::Continue(Response::Handled)
            }
            _ => ControlFlow::Continue(Response::Handled),
        }
    }
}

#[test]
fn builder_reports_missing_options() {
    let b = SessionBuilder::<NullSocket>::new();
    assert_eq!(b.start().err(), Some("must provide local_player"));
    let b = SessionBuilder::<NullSocket>::new().local_player(0);
    assert_eq!(b.start().err(), Some("must provide default_inputs"));
    let b = SessionBuilder::<NullSocket>::new().local_player(0).default_inputs(vec![0]);
    assert_eq!(b.start().err(), Some("must provide step_size"));
    let b = SessionBuilder::<NullSocket>::new()
        .local_player(0)
        .default_inputs(vec![0])
        .step_size(STEP);
    assert_eq!(b.start().err(), Some("must provide socket"));
    let b = SessionBuilder::<NullSocket>::new()
        .local_player(0)
        .default_inputs(vec![0])
        .step_size(0)
        .with_socket(NullSocket);
    assert_eq!(b.start().err(), Some("step_size out of range"));
}

#[test]
fn players_lists_local_then_remotes() {
    let session = SessionBuilder::<NullSocket>::new()
        .local_player(0)
        .remote_players(2)
        .default_inputs(vec![0])
        .step_size(STEP)
        .with_socket(NullSocket)
        .start()
        .unwrap();
    let players = session.players();
    assert_eq!(players.len(), 3);
    assert_eq!(players[0].0, 0);
    assert!(matches!(players[0].1, Player::Local));
    // Ids skip the local id: the remotes are 1 and 2.
    assert_eq!(players[1].0, 1);
    assert_eq!(players[2].0, 2);
}

/// A peerless session saves frame 0, captures each realtime frame, and
/// confirms every frame it advances over.
#[test]
fn solo_session_confirms_every_frame() {
    let mut session = SessionBuilder::<NullSocket>::new()
        .local_player(0)
        .remote_players(0)
        .default_inputs(vec![1])
        .step_size(STEP)
        .with_socket(NullSocket)
        .start()
        .unwrap();
    let mut host = CounterHost::new();
    host.next_input = 1;
    for tick in 0..50u64 {
        let now = tick * 8 * MS;
        let flow = session.next_request(&mut host, now);
        assert!(matches!(flow, ControlFlow::Break(())));
    }
    assert_eq!(host.saves > 0, true);
    assert_eq!(host.loads, 0, "a peerless session never rolls back");
    assert!(host.captures > 10);
    assert!(host.advances >= host.confirmed.len());
    // Frames confirm in order from 0, each with exactly the local input.
    assert!(host.confirmed.len() > 10);
    for (i, (frame, inputs)) in host.confirmed.iter().enumerate() {
        assert_eq!(*frame as usize, i);
        if i > 0 {
            assert_eq!(inputs, &vec![(0u16, 1u8)]);
        }
    }
    assert_eq!(session.determinism_failure(), None);
}

/// Two lockstep peers over a lossless link confirm the same frames with the
/// same inputs and reach the same state.
#[test]
fn two_peer_sessions_agree() {
    let q01: Queue = Rc::new(RefCell::new(VecDeque::new()));
    let q10: Queue = Rc::new(RefCell::new(VecDeque::new()));
    let sock0 = ChanSocket { my_id: 0, outbox: q01.clone(), inbox: q10.clone() };
    let sock1 = ChanSocket { my_id: 1, outbox: q10, inbox: q01 };
    let mut s0 = SessionBuilder::new()
        .local_player(0)
        .remote_players(1)
        .default_inputs(vec![0])
        .step_size(STEP)
        .with_socket(sock0)
        .start()
        .unwrap();
    let mut s1 = SessionBuilder::new()
        .local_player(1)
        .remote_players(1)
        .default_inputs(vec![0])
        .step_size(STEP)
        .with_socket(sock1)
        .start()
        .unwrap();
    let mut h0 = CounterHost::new();
    let mut h1 = CounterHost::new();
    h0.next_input = 2;
    h1.next_input = 3;
    for tick in 0..4000u64 {
        let now = tick * 5 * MS;
        let _ = s0.next_request(&mut h0, now);
        let _ = s1.next_request(&mut h1, now + MS);
    }
    assert!(
        h0.confirmed.len() > 100,
        "peer 0 confirmed only {} frames",
        h0.confirmed.len()
    );
    assert!(h1.confirmed.len() > 100);
    // The shorter confirmed prefix matches the longer one exactly.
    let n = h0.confirmed.len().min(h1.confirmed.len());
    assert_eq!(&h0.confirmed[..n], &h1.confirmed[..n]);
    // Both peers speculated ahead of the other's inputs, so confirming
    // required rolling back to stored snapshots.
    assert!(h0.loads > 0 || h1.loads > 0, "no rollback ever happened");
    assert_eq!(s0.determinism_failure(), None);
    assert_eq!(s1.determinism_failure(), None);
}


/// A deterministic lossy link: drops a fixed share of datagrams and delays
/// the rest, releasing them in due order.
struct LossySocket {
    my_id: u16,
    outbox: Queue,
    inbox: Rc<RefCell<VecDeque<(u64, (u16, Vec<u8>))>>>,
    raw_inbox: Queue,
    state: u64,
}

impl LossySocket {
    fn roll(&mut self) -> u64 {
        // A small linear congruential generator keeps the test repeatable.
        self.state = self.state.wrapping_mul(6364136223846793005).wrapping_add(1442695040888963407);
        self.state >> 33
    }
}

impl NonBlockingSocket for LossySocket {
    fn send(&mut self, message: &Vec<u8>, _addr: u16, _now: u64) {
        if self.roll() % 10 < 6 {
            // Dropped.
            return;
        }
        self.outbox.borrow_mut().push_back((self.my_id, message.clone()));
    }

    fn recv(&mut self, now: u64) -> Option<(u16, Vec<u8>)> {
        // Move raw arrivals into the delay queue with a pseudo-random lag.
        loop {
            let raw = self.raw_inbox.borrow_mut().pop_front();
            match raw {
                None => break,
                Some(packet) => {
                    let lag = (self.roll() % 100) * MS;
                    self.inbox.borrow_mut().push_back((now + lag, packet));
                }
            }
        }
        let mut q = self.inbox.borrow_mut();
        // Release the earliest due packet.
        let due = q
            .iter()
            .enumerate()
            .filter(|(_, (at, _))| *at <= now)
            .min_by_key(|(_, (at, _))| *at)
            .map(|(i, _)| i);
        due.and_then(|i| q.remove(i)).map(|(_, packet)| packet)
    }

    fn stats(&self) -> Option<SocketStats> {
        None
    }
}

/// Under heavy loss and delay the peers still converge: both confirmation
/// horizons advance far and the determinism guard stays silent.
#[test]
fn lossy_network_convergence() {
    let q01: Queue = Rc::new(RefCell::new(VecDeque::new()));
    let q10: Queue = Rc::new(RefCell::new(VecDeque::new()));
    let sock0 = LossySocket {
        my_id: 0,
        outbox: q01.clone(),
        inbox: Rc::new(RefCell::new(VecDeque::new())),
        raw_inbox: q10.clone(),
        state: 7,
    };
    let sock1 = LossySocket {
        my_id: 1,
        outbox: q10,
        inbox: Rc::new(RefCell::new(VecDeque::new())),
        raw_inbox: q01,
        state: 1234,
    };
    let step = 17 * MS;
    let mut s0 = SessionBuilder::new()
        .local_player(0)
        .remote_players(1)
        .default_inputs(vec![0])
        .step_size(step)
        .with_socket(sock0)
        .start()
        .unwrap();
    let mut s1 = SessionBuilder::new()
        .local_player(1)
        .remote_players(1)
        .default_inputs(vec![0])
        .step_size(step)
        .with_socket(sock1)
        .start()
        .unwrap();
    let mut h0 = CounterHost::new();
    let mut h1 = CounterHost::new();
    h0.next_input = 1;
    h1.next_input = 2;
    // Ten simulated seconds, ticking every two milliseconds.
    for tick in 0..5000u64 {
        let now = tick * 2 * MS;
        let _ = s0.next_request(&mut h0, now);
        let _ = s1.next_request(&mut h1, now + MS / 2);
    }
    assert!(
        h0.confirmed.len() >= 200,
        "peer 0 confirmed only {} frames over a lossy link",
        h0.confirmed.len()
    );
    assert!(h1.confirmed.len() >= 200);
    let n = h0.confirmed.len().min(h1.confirmed.len());
    assert_eq!(&h0.confirmed[..n], &h1.confirmed[..n]);
    assert_eq!(s0.determinism_failure(), None);
    assert_eq!(s1.determinism_failure(), None);
}


/// A host whose snapshots lie about its state: the determinism guard on the
/// honest side must record the disagreement.
struct SkewedHost {
    inner: CounterHost,
    skew: u8,
}

impl RequestHandler for SkewedHost {
    type Break = ();

    fn handle_request(&mut self, request: Request) -> ControlFlow<(), Response> {
        match request {
            Request::SaveTo => {
                self.inner.saves += 1;
                ControlFlow::Continue(Response::Saved(vec![
                    self.inner.value.wrapping_add(self.skew),
                ]))
            }
            other => self.inner.handle_request(other),
        }
    }
}

#[test]
fn diverging_states_are_reported() {
    let q01: Queue = Rc::new(RefCell::new(VecDeque::new()));
    let q10: Queue = Rc::new(RefCell::new(VecDeque::new()));
    let sock0 = ChanSocket { my_id: 0, outbox: q01.clone(), inbox: q10.clone() };
    let sock1 = ChanSocket { my_id: 1, outbox: q10, inbox: q01 };
    let mut s0 = SessionBuilder::new()
        .local_player(0)
        .remote_players(1)
        .default_inputs(vec![0])
        .step_size(STEP)
        .with_socket(sock0)
        .start()
        .unwrap();
    let mut s1 = SessionBuilder::new()
        .local_player(1)
        .remote_players(1)
        .default_inputs(vec![0])
        .step_size(STEP)
        .with_socket(sock1)
        .start()
        .unwrap();
    let mut h0 = CounterHost::new();
    let mut h1 = SkewedHost { inner: CounterHost::new(), skew: 7 };
    h0.next_input = 2;
    h1.inner.next_input = 3;
    for tick in 0..2000u64 {
        let now = tick * 5 * MS;
        let _ = s0.next_request(&mut h0, now);
        let _ = s1.next_request(&mut h1, now + MS);
    }
    // The two peers hash different confirmed snapshots, so at least one side
    // records the mismatch.
    assert!(
        s0.determinism_failure().is_some() || s1.determinism_failure().is_some(),
        "diverging snapshots went unnoticed"
    );
}
