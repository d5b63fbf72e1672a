use qft::transfer::{input_finished, length_record, read_length, report_due};

#[test]
fn length_record_is_big_endian() {
    assert_eq!(length_record(0x0102_0304_0506_0708), vec![1, 2, 3, 4, 5, 6, 7, 8]);
    assert_eq!(length_record(5), vec![0, 0, 0, 0, 0, 0, 0, 5]);
}

#[test]
fn length_record_round_trip() {
    for n in [0u64, 1, 255, 256, 1 << 40, u64::MAX, 0xDEAD_BEEF_0000_0001] {
        assert_eq!(read_length(&length_record(n)), Some(n));
    }
}

#[test]
fn short_length_record_is_refused() {
    assert_eq!(read_length(&[1, 2, 3, 4, 5, 6, 7]), None);
    assert_eq!(read_length(&[]), None);
    assert_eq!(read_length(&[0, 0, 0, 0, 0, 0, 1, 0, 9]), Some(256));
}

#[test]
fn progress_lines() {
    assert!(report_due(256, 256) == false);
    assert!(report_due(5120, 256));
    assert!(report_due(5120 + 255, 256));
    assert!(!report_due(5120 + 256, 256));
    assert!(report_due(100, 0) == false);
}

#[test]
fn sender_stops_at_end_of_input() {
    assert!(input_finished(0, false));
    assert!(!input_finished(0, true));
    assert!(!input_finished(3, false));
}
