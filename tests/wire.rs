use qft::clock::unix_millis;
use qft::frame::{read_seq, PacketKind};
use qft::seqnum::{classify, forward_distance, next_seq, wire_seq_of, Arrival};

#[test]
fn kind_codes() {
    assert_eq!(PacketKind::Write.code(), 0);
    assert_eq!(PacketKind::Ack.code(), 1);
    assert_eq!(PacketKind::ResendRequest.code(), 2);
    assert_eq!(PacketKind::End.code(), 3);
    assert_eq!(PacketKind::from_code(2), Some(PacketKind::ResendRequest));
    assert_eq!(PacketKind::from_code(4), None);
}

#[test]
fn sequence_arithmetic() {
    assert_eq!(wire_seq_of(0x1_0002), 2);
    assert_eq!(forward_distance(0xFFFE, 1), 3);
    assert_eq!(forward_distance(5, 3), 0xFFFE);
    assert_eq!(next_seq(0xFFFF), 0);
    assert_eq!(next_seq(41), 42);
    assert_eq!(read_seq(&[0x01, 0x02, 9]), 0x0102);
}

#[test]
fn arrival_classes() {
    assert_eq!(classify(10, 10), Arrival::Current);
    assert_eq!(classify(10, 11), Arrival::Ahead);
    assert_eq!(classify(10, 9), Arrival::Behind);
    assert_eq!(classify(0xFFFF, 0), Arrival::Ahead);
    assert_eq!(classify(0, 0xFFFF), Arrival::Behind);
    assert_eq!(classify(0, 0xBFFF), Arrival::Ahead);
    assert_eq!(classify(0, 0xC000), Arrival::Behind);
}

#[test]
fn clock_reads_the_present() {
    let t = unix_millis();
    // 2020-01-01 in milliseconds since the epoch.
    assert!(t > 1_577_836_800_000);
}
