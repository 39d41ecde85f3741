use rbrb::codec::Message;
use rbrb::codec::decode_message;
use rbrb::codec::encode_message;
use rbrb::time::ClockMessage;
use rbrb::time::NetworkAnalysisMessage;
use rbrb::utils::Signed;

fn round_trips(m: Message) {
    let bytes = encode_message(&m);
    let back = decode_message(&bytes).expect("must decode");
    assert_eq!(back, m);
}

#[test]
fn wire_round_trip_inputs() {
    round_trips(Message::Inputs(vec![]));
    round_trips(Message::Inputs(vec![(0, vec![]), (3, vec![1, 2, 3]), (7, vec![0xFF])]));
}

#[test]
fn wire_round_trip_unconfirmed() {
    round_trips(Message::Unconfirmed(0));
    round_trips(Message::Unconfirmed(u32::MAX));
}

#[test]
fn wire_round_trip_clock() {
    round_trips(Message::Clock(ClockMessage::Elapsed(Signed::Pos(123_456_789))));
    round_trips(Message::Clock(ClockMessage::Elapsed(Signed::Neg(5))));
    round_trips(Message::Clock(ClockMessage::NetworkAnalysis(
        NetworkAnalysisMessage::Ping(0xDEAD_BEEF_0000_0001),
    )));
    round_trips(Message::Clock(ClockMessage::NetworkAnalysis(
        NetworkAnalysisMessage::Pong(42, 1_000_000),
    )));
}

#[test]
fn wire_round_trip_plugin() {
    round_trips(Message::Plugin(b"checksums".to_vec(), vec![9, 9, 9]));
    round_trips(Message::Plugin(vec![], vec![]));
}

#[test]
fn wire_rejects_trailing_bytes() {
    let mut bytes = encode_message(&Message::Unconfirmed(3));
    bytes.push(0);
    assert!(decode_message(&bytes).is_none());
}

#[test]
fn wire_rejects_truncation_and_bad_tags() {
    let bytes = encode_message(&Message::Unconfirmed(3));
    assert!(decode_message(&bytes[..bytes.len() - 1].to_vec()).is_none());
    assert!(decode_message(&vec![]).is_none());
    // An unknown envelope tag.
    let mut bad = vec![9, 0, 0, 0];
    bad.extend_from_slice(&[0, 0, 0, 0]);
    assert!(decode_message(&bad).is_none());
}

/// The hand-rolled encoding matches the fixed-width little-endian layout
/// bincode gives equivalent standard-library shapes.
#[test]
fn wire_matches_bincode_layout() {
    // Unconfirmed(5): variant index 1 as u32, then the frame as u32.
    let ours = encode_message(&Message::Unconfirmed(5));
    let reference = bincode::serialize(&(1u32, 5u32)).unwrap();
    assert_eq!(ours, reference);

    // Inputs([(3, [1,2])]): variant index 0, then the entry list.
    let ours = encode_message(&Message::Inputs(vec![(3, vec![1, 2])]));
    let entries: Vec<(u32, Vec<u8>)> = vec![(3, vec![1, 2])];
    let reference = bincode::serialize(&(0u32, entries)).unwrap();
    assert_eq!(ours, reference);

    // Plugin(id, payload): variant index 3, then two byte strings.
    let ours = encode_message(&Message::Plugin(vec![7], vec![8, 9]));
    let reference = bincode::serialize(&(3u32, vec![7u8], vec![8u8, 9])).unwrap();
    assert_eq!(ours, reference);
}
