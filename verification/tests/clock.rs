use rbrb::stats::Historical;
use rbrb::time::ClockMessage;
use rbrb::time::Interval;
use rbrb::time::NetworkAnalysisMessage;
use rbrb::time::NetworkQuality;
use rbrb::time::SharedClock;
use rbrb::time::next_ready;

const MS: u64 = 1_000_000;

#[test]
fn interval_fires_immediately_then_periodically() {
    let mut iv = Interval::new(100 * MS);
    assert!(iv.is_time(5 * MS));
    assert!(!iv.is_time(50 * MS));
    assert!(!iv.is_time(104 * MS));
    assert!(iv.is_time(105 * MS));
    // The anchor advanced by exactly one period, so missed ticks catch up.
    assert!(iv.is_time(350 * MS));
    assert!(iv.is_time(351 * MS));
}

#[test]
fn interval_set_every_keeps_anchor() {
    let mut iv = Interval::new(100 * MS);
    assert!(iv.is_time(0));
    iv.set_every(10 * MS);
    assert!(iv.is_time(10 * MS));
}

#[test]
fn network_quality_answers_pings() {
    let mut nq = NetworkQuality::new();
    nq.receive_message(NetworkAnalysisMessage::Ping(77), 1000);
    match nq.message(1500) {
        Some(NetworkAnalysisMessage::Pong(id, held)) => {
            assert_eq!(id, 77);
            assert_eq!(held, 500);
        },
        other => panic!("expected a pong, got {:?}", other),
    }
}

fn feed_samples(nq: &mut NetworkQuality, n: usize, rtt: u64) -> u64 {
    let mut now = 0u64;
    let mut fed = 0usize;
    while fed < n {
        now += 200 * MS;
        if let Some(NetworkAnalysisMessage::Ping(id)) = nq.message(now) {
            nq.receive_message(NetworkAnalysisMessage::Pong(id, 0), now + rtt);
            fed += 1;
        }
    }
    now
}

#[test]
fn rtt_thresholds_for_average_and_worst() {
    let mut nq = NetworkQuality::new();
    assert_eq!(nq.average_rtt(), None);
    assert_eq!(nq.worst_case_rtt(), None);
    feed_samples(&mut nq, 2, 8 * MS);
    assert_eq!(nq.average_rtt(), None);
    feed_samples(&mut nq, 1, 8 * MS);
    assert_eq!(nq.average_rtt(), Some(8 * MS));
    assert_eq!(nq.worst_case_rtt(), None);
    feed_samples(&mut nq, 2, 14 * MS);
    assert_eq!(nq.worst_case_rtt(), Some(14 * MS));
}

/// The externally served elapsed duration never decreases, whatever the
/// clock reads in between.
#[test]
fn shared_clock_elapsed_never_decreases() {
    let remotes: Vec<u16> = Vec::new();
    let mut clock = SharedClock::among_remotes(&remotes);
    // With no peers the proposal succeeds immediately.
    let _ = clock.message(1000 * MS);
    let mut last = 0u64;
    for now in [1000 * MS, 1500 * MS, 1200 * MS, 2000 * MS, 1800 * MS] {
        if let Some(v) = clock.elapsed(now) {
            assert!(v >= last, "elapsed went backward");
            last = v;
        }
    }
    assert!(last >= 1000 * MS - 1000 * MS);
    assert!(clock.elapsed(2000 * MS).unwrap() >= 1000 * MS);
}

#[test]
fn shared_clock_waits_for_peer_quality() {
    let remotes: Vec<u16> = vec![1];
    let mut clock = SharedClock::among_remotes(&remotes);
    // The peer has no round-trip samples yet, so no origin is proposed and
    // the clock serves nothing but pings.
    match clock.message(50 * MS) {
        Some((1, ClockMessage::NetworkAnalysis(NetworkAnalysisMessage::Ping(_)))) => {},
        other => panic!("expected a ping to the peer, got {:?}", other),
    }
    assert_eq!(clock.elapsed(60 * MS), None);
}

#[test]
fn historical_average_over_window() {
    let mut h = Historical::over_secs(3);
    h.increment(1_000 * MS, 300);
    h.increment(2_000 * MS, 300);
    h.increment(3_000 * MS, 300);
    // All samples lie within the last three seconds of t=3s.
    assert_eq!(h.avg_per_sec(3_000 * MS), 300);
    // Nine seconds later the samples have aged out of the window.
    assert_eq!(h.avg_per_sec(12_000 * MS), 0);
}

#[test]
fn historical_clean_drops_stale_samples() {
    let mut h = Historical::over_secs(1);
    h.increment(0, 100);
    h.increment(5_000 * MS, 7);
    h.clean(5_000 * MS);
    assert_eq!(h.avg_per_sec(5_000 * MS), 7);
}

#[test]
fn next_ready_releases_in_due_order() {
    let mut q: Vec<(u64, &str)> = vec![(10, "a"), (20, "b")];
    assert_eq!(next_ready(&mut q, 5), None);
    assert_eq!(next_ready(&mut q, 15), Some("a"));
    assert_eq!(next_ready(&mut q, 15), None);
    assert_eq!(next_ready(&mut q, 25), Some("b"));
    assert_eq!(next_ready(&mut q, 25), None);
}
