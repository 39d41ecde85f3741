use rbrb::inputs::Confirmation;
use rbrb::inputs::InputStorage;
use rbrb::inputs::SparseInputs;

fn keys_and_values(sp: &SparseInputs) -> Vec<(u32, Vec<u8>)> {
    sp.entries_ref().clone()
}

#[test]
fn sparse_hold_last_reads() {
    let mut sp = SparseInputs::empty();
    sp.insert_if_absent(0, vec![0xAA]);
    sp.insert_if_absent(5, vec![0xBB]);
    // Before any key: undefined.
    // (No key below 0 exists, so every read from 0 on is defined.)
    assert_eq!(sp.at(0), Some(Confirmation::Confirmed(vec![0xAA])));
    assert_eq!(sp.at(3), Some(Confirmation::Confirmed(vec![0xAA])));
    assert_eq!(sp.at(5), Some(Confirmation::Unconfirmed(vec![0xBB])));
    assert_eq!(sp.at(100), Some(Confirmation::Unconfirmed(vec![0xBB])));
}

#[test]
fn sparse_read_below_every_key_is_undefined() {
    let mut sp = SparseInputs::empty();
    sp.insert_if_absent(4, vec![1]);
    assert_eq!(sp.at(3), None);
    assert_eq!(sp.at(4), Some(Confirmation::Unconfirmed(vec![1])));
}

/// Compaction keeps hold-last values while dropping entries that repeat
/// their predecessor, never the newest.
#[test]
fn compaction_scenario() {
    let a = vec![0x0A];
    let b = vec![0x0B];
    let c = vec![0x0C];
    let mut sp = SparseInputs::empty();
    sp.insert_if_absent(0, a.clone());
    assert!(sp.capture_into(1, a.clone()));
    assert!(sp.capture_into(2, b.clone()));
    assert!(sp.capture_into(3, b.clone()));
    assert!(sp.capture_into(4, c.clone()));
    assert!(sp.capture_into(5, c.clone()));
    assert!(sp.capture_into(6, vec![]));
    let entries = keys_and_values(&sp);
    let keys: Vec<u32> = entries.iter().map(|e| e.0).collect();
    assert_eq!(keys, vec![0, 2, 4, 5, 6]);
    assert_eq!(entries[0].1, a);
    assert_eq!(entries[1].1, b);
    assert_eq!(entries[2].1, c);
    assert_eq!(entries[3].1, c);
    assert_eq!(sp.at(3), Some(Confirmation::Confirmed(b.clone())));
}

/// Capturing then reading the same frame: confirmed exactly when a later
/// input exists.
#[test]
fn capture_then_read_back() {
    let mut sp = SparseInputs::empty();
    sp.insert_if_absent(0, vec![0]);
    assert!(sp.capture_into(7, vec![7]));
    assert_eq!(sp.at(7), Some(Confirmation::Unconfirmed(vec![7])));
    sp.insert_if_absent(9, vec![9]);
    assert_eq!(sp.at(7), Some(Confirmation::Confirmed(vec![7])));
}

#[test]
fn capture_rejects_duplicates() {
    let mut sp = SparseInputs::empty();
    assert!(sp.capture_into(3, vec![1]));
    assert!(!sp.capture_into(3, vec![2]));
    assert_eq!(sp.at(3), Some(Confirmation::Unconfirmed(vec![1])));
}

#[test]
fn storage_rejects_frame_zero_capture() {
    let mut st = InputStorage::with_default(vec![0x00]);
    assert!(!st.capture_into(0, 1, vec![9]));
}

#[test]
fn storage_seeds_default_at_frame_zero() {
    let mut st = InputStorage::with_default(vec![0x42]);
    assert!(st.capture_into(3, 1, vec![9]));
    let window = st.player_since_frame(1, 0);
    assert_eq!(window, vec![(0, vec![0x42]), (3, vec![9])]);
}

/// Merging the same remote batch twice leaves the store unchanged.
#[test]
fn merge_remote_is_idempotent() {
    let batch = vec![(1u32, vec![1u8]), (4, vec![4]), (2, vec![2])];
    let mut st = InputStorage::with_default(vec![0]);
    st.merge_remote(7, batch.clone());
    let once = st.player_since_frame(7, 0);
    st.merge_remote(7, batch);
    let twice = st.player_since_frame(7, 0);
    assert_eq!(once, twice);
    assert_eq!(once, vec![(1, vec![1]), (2, vec![2]), (4, vec![4])]);
}

/// The first writer wins: a later merge never overwrites a stored frame.
#[test]
fn merge_remote_first_writer_wins() {
    let mut st = InputStorage::with_default(vec![0]);
    st.merge_remote(7, vec![(5, vec![0xAA])]);
    st.merge_remote(7, vec![(5, vec![0xBB]), (6, vec![0xCC])]);
    let window = st.player_since_frame(7, 0);
    assert_eq!(window, vec![(5, vec![0xAA]), (6, vec![0xCC])]);
}

#[test]
fn aggregate_read_and_confirmation_counts() {
    let mut st = InputStorage::with_default(vec![0]);
    // The local player 0 captures frames 1 and 2; peer 7 merges frame 1.
    assert!(st.capture_into(1, 0, vec![1]));
    assert!(st.capture_into(2, 0, vec![2]));
    st.merge_remote(7, vec![(1, vec![71])]);
    let at1 = st.at_frame(1).expect("both players defined at frame 1");
    // Local read at 1 is confirmed (frame 2 exists); the peer's is not.
    assert!(at1.is_fully_populated(1));
    assert!(!at1.is_fully_confirmed(1));
    assert_eq!(
        at1.get(&0),
        Some(&Confirmation::Confirmed(vec![1]))
    );
    assert_eq!(
        at1.get(&7),
        Some(&Confirmation::Unconfirmed(vec![71]))
    );
    // Once the peer's frame 3 arrives, frame 1 is fully confirmed.
    st.merge_remote(7, vec![(3, vec![73])]);
    let at1 = st.at_frame(1).unwrap();
    assert!(at1.is_fully_confirmed(1));
}

#[test]
fn aggregate_read_empty_store() {
    let st = InputStorage::with_default(vec![0]);
    assert!(st.at_frame(5).is_none());
}

#[test]
fn confirmation_helpers() {
    let c = Confirmation::Confirmed(3u32);
    let u = Confirmation::Unconfirmed(4u32);
    assert!(c.is_confirmed());
    assert!(!u.is_confirmed());
    assert_eq!(c.clone().into_inner(), 3);
    assert_eq!(u.clone().into_inner(), 4);
    assert_eq!(c.map(|x| x + 1), Confirmation::Confirmed(4u32));
    assert_eq!(u.map(|x| x + 1), Confirmation::Unconfirmed(5u32));
}
