use qft::engine::{ReadStep, SafeReadWrite, IN_FLIGHT_CAP};
use qft::frame::{control_frame, encode_frame, PacketKind};

fn ack(seq: u16) -> Vec<u8> {
    control_frame(seq, PacketKind::Ack)
}

fn resend_request(seq: u16) -> Vec<u8> {
    control_frame(seq, PacketKind::ResendRequest)
}

/// Feeds one datagram to a reader and returns what it hands out.
fn feed(rx: &mut SafeReadWrite, d: &[u8]) -> ReadStep {
    rx.read_safe(d)
}

/// Runs a write's service loop until it finishes, delivering `inbound` first.
fn finish(tx: &mut SafeReadWrite, inbound: &[Vec<u8>], now: u64) -> Vec<Vec<u8>> {
    let mut sent = Vec::new();
    for d in inbound {
        let r = tx.service_datagram(d, now);
        sent.extend(r.frames);
    }
    let step = tx.service_idle(now);
    assert!(step.finished);
    sent
}

#[test]
fn framing_write_frame_has_header_then_payload() {
    let mut tx = SafeReadWrite::new();
    let out = tx.write_safe(b"abc", 0);
    assert_eq!(out.frame, vec![0, 0, 0, b'a', b'b', b'c']);
    assert!(out.fast_poll);
    assert!(tx.service_idle(0).finished);
    let out = tx.write_safe(&[], 0);
    assert_eq!(out.frame, vec![0, 1, 0]);
}

#[test]
fn framing_largest_payload() {
    let payload = vec![7u8; 0xFFFC];
    let mut tx = SafeReadWrite::new();
    let out = tx.write_safe(&payload, 0);
    assert_eq!(out.frame.len(), 0xFFFC + 3);
    assert_eq!(&out.frame[..3], &[0, 0, 0]);
    assert_eq!(&out.frame[3..], &payload[..]);
    let mut rx = SafeReadWrite::new();
    let step = feed(&mut rx, &out.frame);
    assert_eq!(step.record, Some((payload.clone(), 0xFFFC)));
}

#[test]
fn framing_sequence_number_is_big_endian() {
    let f = encode_frame(0x1234, PacketKind::Write, &[9]);
    assert_eq!(f, vec![0x12, 0x34, 0, 9]);
    assert_eq!(control_frame(0xABCD, PacketKind::End), vec![0xAB, 0xCD, 3]);
    assert_eq!(control_frame(5, PacketKind::ResendRequest), vec![0, 5, 2]);
}

#[test]
fn tiny_transfer_lossless() {
    let mut tx = SafeReadWrite::new();
    let mut rx = SafeReadWrite::new();
    let mut wire: Vec<Vec<u8>> = Vec::new();

    let w = tx.write_safe(b"hello", 0);
    wire.push(w.frame.clone());
    let r = feed(&mut rx, &w.frame);
    assert_eq!(r.record, Some((b"hello".to_vec(), 5)));
    let a = r.reply.unwrap();
    wire.push(a.clone());
    finish(&mut tx, &[a], 0);

    let e = tx.end(0);
    assert!(tx.is_ended());
    wire.push(e.frame.clone());
    let r = feed(&mut rx, &e.frame);
    assert_eq!(r.record, Some((Vec::new(), 0)));
    let a = r.reply.unwrap();
    wire.push(a.clone());
    // End waits for its acknowledgement.
    assert!(!tx.service_idle(0).finished);
    finish(&mut tx, &[a], 0);
    assert_eq!(tx.in_flight(), 0);

    assert_eq!(
        wire,
        vec![
            vec![0, 0, 0, b'h', b'e', b'l', b'l', b'o'],
            vec![0, 0, 1],
            vec![0, 1, 3],
            vec![0, 1, 1],
        ]
    );
}

#[test]
fn single_dropped_write() {
    let mut tx = SafeReadWrite::new();
    let mut rx = SafeReadWrite::new();
    let mut delivered: Vec<Vec<u8>> = Vec::new();

    let fa = tx.write_safe(b"A", 0).frame;
    finish(&mut tx, &[], 0);
    let fb = tx.write_safe(b"B", 0).frame;
    finish(&mut tx, &[], 0);
    let fc = tx.write_safe(b"C", 0).frame;
    assert_eq!(tx.in_flight(), 3);

    let r0 = feed(&mut rx, &fa);
    delivered.push(r0.record.unwrap().0);
    let _ = fb; // lost on the wire
    let r2 = feed(&mut rx, &fc);
    assert!(r2.record.is_none());
    assert_eq!(r2.gap, Some((2, 1)));
    assert_eq!(r2.reply, Some(resend_request(1)));

    let re = tx.service_datagram(&r0.reply.unwrap(), 0);
    assert!(re.frames.is_empty());
    let re = tx.service_datagram(&resend_request(1), 0);
    assert_eq!(re.dropped, Some(1));
    assert_eq!(re.frames, vec![vec![0, 1, 0, b'B'], vec![0, 2, 0, b'C']]);
    assert!(!tx.service_idle(0).finished);

    let mut acks = Vec::new();
    for f in &re.frames {
        let r = feed(&mut rx, f);
        delivered.push(r.record.unwrap().0);
        acks.push(r.reply.unwrap());
    }
    assert_eq!(delivered, vec![b"A".to_vec(), b"B".to_vec(), b"C".to_vec()]);
    finish(&mut tx, &acks, 0);
    assert_eq!(tx.in_flight(), 0);
}

#[test]
fn duplicated_write() {
    let mut tx = SafeReadWrite::new();
    let mut rx = SafeReadWrite::new();
    let f = tx.write_safe(b"X", 0).frame;
    let r1 = feed(&mut rx, &f);
    let r2 = feed(&mut rx, &f);
    assert_eq!(r1.record, Some((b"X".to_vec(), 1)));
    assert_eq!(r2.record, None);
    assert_eq!(r1.reply, Some(ack(0)));
    assert_eq!(r2.reply, Some(ack(0)));
    assert_eq!(rx.packet_count_in(), 1);
}

#[test]
fn backpressure_blocks_at_the_cap() {
    let mut tx = SafeReadWrite::new();
    let record = vec![1u8; 1024];
    for i in 0..150u16 {
        let out = tx.write_safe(&record, 0);
        assert!(tx.in_flight() <= IN_FLIGHT_CAP);
        if tx.in_flight() < IN_FLIGHT_CAP {
            assert!(out.fast_poll);
            assert!(tx.service_idle(0).finished);
        } else {
            // The write at the cap blocks until an acknowledgement arrives.
            assert_eq!(i, 99);
            assert!(!out.fast_poll);
            assert!(!tx.service_idle(0).finished);
            assert!(!tx.service_idle(0).finished);
            tx.service_datagram(&ack(i), 0);
            assert_eq!(tx.in_flight(), 0);
            assert!(tx.service_idle(0).finished);
        }
        assert!(tx.in_flight() <= IN_FLIGHT_CAP);
    }
    assert_eq!(tx.in_flight(), 50);
}

#[test]
fn sequence_wrap() {
    let mut tx = SafeReadWrite::new();
    let mut rx = SafeReadWrite::new();
    let mut sender_wraps = 0;
    let mut receiver_wraps = 0;
    let n: u64 = 65_537;
    for i in 0..n {
        let byte = (i % 251) as u8;
        let f = tx.write_safe(&[byte], 0).frame;
        let r = feed(&mut rx, &f);
        if r.wrapped {
            receiver_wraps += 1;
        }
        assert_eq!(r.record, Some((vec![byte], 1)));
        let re = tx.service_datagram(&r.reply.unwrap(), 0);
        if re.wrapped {
            sender_wraps += 1;
        }
        assert!(tx.service_idle(0).finished);
    }
    assert_eq!(sender_wraps, 1);
    assert_eq!(receiver_wraps, 1);
    assert_eq!(rx.packet_count_in(), n);
    assert_eq!(tx.packet_count_out(), n);
}

#[test]
fn wrap_write_waits_for_its_acknowledgement() {
    let mut tx = SafeReadWrite::new();
    for _ in 0..0xFFFFu32 {
        let f = tx.write_safe(&[], 0).frame;
        let seq = u16::from_be_bytes([f[0], f[1]]);
        tx.service_datagram(&ack(seq), 0);
        assert!(tx.service_idle(0).finished);
    }
    let out = tx.write_safe(&[1], 0);
    assert_eq!(&out.frame[..3], &[0xFF, 0xFF, 0]);
    assert!(!tx.service_idle(0).finished);
    let re = tx.service_datagram(&ack(0xFFFF), 0);
    assert!(re.wrapped);
    assert!(tx.service_idle(0).finished);
    let out = tx.write_safe(&[2], 0);
    assert_eq!(&out.frame[..3], &[0, 0, 0]);
}

#[test]
fn ack_of_latest_clears_everything() {
    let mut tx = SafeReadWrite::new();
    for _ in 0..2 {
        tx.write_safe(b"r", 0);
        tx.service_idle(0);
    }
    tx.write_safe(b"r", 0);
    assert_eq!(tx.in_flight(), 3);
    tx.service_datagram(&ack(0), 0);
    assert_eq!(tx.in_flight(), 2);
    assert!(tx.is_busy());
    tx.service_datagram(&ack(2), 0);
    assert_eq!(tx.in_flight(), 0);
    assert!(tx.service_idle(0).finished);
    assert!(!tx.is_busy());
}

#[test]
fn ordered_delivery_under_reordering_and_duplicates() {
    let payloads: Vec<Vec<u8>> = (0..5u8).map(|i| vec![i; (i as usize) + 1]).collect();
    let mut tx = SafeReadWrite::new();
    let mut frames = Vec::new();
    for p in &payloads {
        frames.push(tx.write_safe(p, 0).frame);
        tx.service_idle(0);
    }
    let mut rx = SafeReadWrite::new();
    let mut delivered = Vec::new();
    for &i in &[3usize, 0, 0, 2, 1, 1, 4, 2, 3, 0, 4, 3, 4] {
        if let Some((v, n)) = feed(&mut rx, &frames[i]).record {
            assert_eq!(v.len(), n);
            delivered.push(v);
        }
    }
    assert_eq!(delivered, payloads);
}

#[test]
fn loss_tolerance_with_resends() {
    let mut tx = SafeReadWrite::new();
    let mut rx = SafeReadWrite::new();
    let mut frames = Vec::new();
    for i in 0..6u8 {
        frames.push(tx.write_safe(&[i], 0).frame);
        tx.service_idle(0);
    }
    let mut delivered = Vec::new();
    // Frames 1 and 3 are lost the first time; each arrives again later.
    for &i in &[0usize, 2, 4, 1, 5, 2, 3, 4, 5] {
        if let Some((v, _)) = feed(&mut rx, &frames[i]).record {
            delivered.push(v[0]);
        }
    }
    assert_eq!(delivered, vec![0, 1, 2, 3, 4, 5]);
}

#[test]
fn stale_frame_is_acknowledged_again() {
    let mut rx = SafeReadWrite::new();
    let f0 = encode_frame(0, PacketKind::Write, b"a");
    let f1 = encode_frame(1, PacketKind::Write, b"b");
    feed(&mut rx, &f0);
    feed(&mut rx, &f1);
    let r = feed(&mut rx, &f0);
    assert_eq!(r.reply, Some(ack(0)));
    assert_eq!(r.record, None);
    assert_eq!(r.gap, None);
    // A frame far ahead of the window counts as stale, not as a gap.
    let far = encode_frame(0xC002, PacketKind::Write, b"z");
    let r = feed(&mut rx, &far);
    assert_eq!(r.reply, Some(ack(0xC002)));
    assert_eq!(r.gap, None);
    assert_eq!(rx.packet_count_in(), 2);
}

#[test]
fn short_datagrams_are_dropped() {
    let mut rx = SafeReadWrite::new();
    let r = feed(&mut rx, &[0, 0]);
    assert_eq!(r.reply, None);
    assert_eq!(r.record, None);
    assert_eq!(rx.packet_count_in(), 0);
    let mut tx = SafeReadWrite::new();
    tx.write_safe(b"q", 0);
    let re = tx.service_datagram(&[0, 0, 1, 0], 0);
    assert!(re.frames.is_empty());
    assert_eq!(tx.in_flight(), 1);
}

#[test]
fn any_end_frame_ends_the_read() {
    let mut rx = SafeReadWrite::new();
    let e = control_frame(7, PacketKind::End);
    let r = feed(&mut rx, &e);
    assert_eq!(r.record, Some((Vec::new(), 0)));
    assert_eq!(r.reply, Some(resend_request(0)));
    assert_eq!(rx.packet_count_in(), 0);
}

#[test]
fn end_gives_up_after_silence() {
    let mut tx = SafeReadWrite::new();
    tx.end(1_000);
    let s = tx.service_idle(1_000 + 5_000);
    assert!(!s.finished);
    let s = tx.service_idle(1_000 + 5_001);
    assert!(s.finished);
    assert!(s.resend.is_none());
    assert!(!tx.is_busy());
}

#[test]
fn silent_peer_gets_the_current_frame_again() {
    let mut tx = SafeReadWrite::new();
    let out = tx.write_flush_safe(b"w", true, 0);
    assert!(!tx.service_idle(10_000).finished);
    let s = tx.service_idle(10_001);
    assert_eq!(s.resend, Some(out.frame.clone()));
    assert!(!s.finished);
    // The baseline moved: the next resend is another ten seconds away.
    assert!(tx.service_idle(20_001).resend.is_none());
    // Inbound traffic moves it too.
    tx.service_datagram(&[1, 2], 25_000);
    assert!(tx.service_idle(35_000).resend.is_none());
    assert_eq!(tx.service_idle(35_001).resend, Some(out.frame));
    // A clock that goes back counts as no time passed.
    assert!(tx.service_idle(0).resend.is_none());
}

#[test]
fn flushed_write_waits() {
    let mut tx = SafeReadWrite::new();
    tx.write_flush_safe(b"f", true, 0);
    assert!(!tx.service_idle(0).finished);
    tx.service_datagram(&ack(0), 0);
    assert!(tx.service_idle(0).finished);
}

#[test]
fn resend_request_reports_the_drop_once() {
    let mut tx = SafeReadWrite::new();
    tx.write_safe(b"a", 0);
    tx.service_idle(0);
    tx.write_safe(b"b", 0);
    let r1 = tx.service_datagram(&resend_request(0), 0);
    let r2 = tx.service_datagram(&resend_request(1), 0);
    assert_eq!(r1.dropped, Some(0));
    assert_eq!(r2.dropped, None);
    assert_eq!(r1.frames.len(), 2);
    assert_eq!(r2.frames, vec![vec![0, 1, 0, b'b']]);
    // A request for a frame no longer retained sends nothing.
    tx.service_datagram(&ack(0), 0);
    let r3 = tx.service_datagram(&resend_request(0), 0);
    assert!(r3.frames.is_empty());
}

#[test]
fn idle_engine_ignores_service_calls() {
    let mut tx = SafeReadWrite::new();
    let r = tx.service_datagram(&ack(0), 0);
    assert!(r.frames.is_empty());
    let s = tx.service_idle(99_999);
    assert!(s.finished);
    assert!(s.resend.is_none());
}

/// A small deterministic generator for shuffling arrival orders.
struct Lcg(u64);

impl Lcg {
    fn next(&mut self, bound: usize) -> usize {
        self.0 = self.0.wrapping_mul(6364136223846793005).wrapping_add(1442695040888963407);
        ((self.0 >> 33) as usize) % bound
    }
}

#[test]
fn ordered_delivery_many_permutations() {
    let mut rng = Lcg(7);
    for trial in 0..40usize {
        let n = 1 + trial % 12;
        let payloads: Vec<Vec<u8>> = (0..n).map(|i| vec![i as u8, trial as u8]).collect();
        let mut tx = SafeReadWrite::new();
        let frames: Vec<Vec<u8>> = payloads
            .iter()
            .map(|p| {
                let f = tx.write_safe(p, 0).frame;
                tx.service_idle(0);
                f
            })
            .collect();
        let mut rx = SafeReadWrite::new();
        let mut delivered = Vec::new();
        // A shuffled arrival order with duplicates and losses ...
        let mut order: Vec<usize> = (0..3 * n).map(|_| rng.next(n)).collect();
        // ... after which every frame arrives again, in turn.
        order.extend(0..n);
        for i in order {
            if let Some((v, _)) = rx.read_safe(&frames[i]).record {
                delivered.push(v);
                // What has been handed out is always a prefix of the stream.
                assert_eq!(&delivered[..], &payloads[..delivered.len()]);
            }
        }
        assert_eq!(delivered, payloads);
    }
}

#[test]
fn end_to_end_with_lossy_wire() {
    // Every third datagram in either direction is lost; the sender retransmits
    // on resend requests and after silence.
    let mut tx = SafeReadWrite::new();
    let mut rx = SafeReadWrite::new();
    let payloads: Vec<Vec<u8>> = (0..30u8).map(|i| vec![i; 3]).collect();
    let mut delivered = Vec::new();
    let mut tick: u64 = 0;
    let mut counter = 0u32;
    let mut lossy = |d: &Vec<u8>| -> Option<Vec<u8>> {
        counter += 1;
        if counter % 3 == 0 {
            None
        } else {
            Some(d.clone())
        }
    };
    for p in &payloads {
        let out = tx.write_flush_safe(p, true, tick);
        let mut to_rx: Vec<Vec<u8>> = lossy(&out.frame).into_iter().collect();
        loop {
            let mut to_tx = Vec::new();
            for f in to_rx.drain(..) {
                let r = rx.read_safe(&f);
                if let Some((v, _)) = r.record {
                    delivered.push(v);
                }
                if let Some(reply) = r.reply {
                    to_tx.extend(lossy(&reply));
                }
            }
            for d in to_tx {
                for f in tx.service_datagram(&d, tick).frames {
                    to_rx.extend(lossy(&f));
                }
            }
            tick += 6_000;
            let step = tx.service_idle(tick);
            if let Some(f) = step.resend {
                to_rx.extend(lossy(&f));
            }
            if step.finished {
                break;
            }
        }
    }
    assert_eq!(delivered, payloads);
}

#[test]
fn waiting_write_never_ends_on_silence() {
    let mut tx = SafeReadWrite::new();
    tx.write_flush_safe(b"w", true, 0);
    // The frame is acknowledged, then a late resend request makes the write wait again.
    tx.service_datagram(&ack(0), 0);
    assert_eq!(tx.in_flight(), 0);
    let r = tx.service_datagram(&resend_request(0), 0);
    assert!(r.frames.is_empty());
    for now in [5_001u64, 10_001, 20_002, 1_000_000] {
        let s = tx.service_idle(now);
        assert!(!s.finished);
        assert!(s.resend.is_none());
        assert!(tx.is_busy());
    }
    // Its acknowledgement lets it finish.
    tx.service_datagram(&ack(0), 1_000_000);
    assert!(tx.service_idle(1_000_000).finished);
}

#[test]
fn resend_request_above_current_sends_nothing() {
    let mut tx = SafeReadWrite::new();
    for _ in 0..3 {
        tx.write_safe(b"r", 0);
        tx.service_idle(0);
    }
    tx.write_safe(b"r", 0);
    assert_eq!(tx.in_flight(), 4);
    let r = tx.service_datagram(&resend_request(4), 0);
    assert!(r.frames.is_empty());
    let r = tx.service_datagram(&resend_request(0xFFFF), 0);
    assert!(r.frames.is_empty());
    let r = tx.service_datagram(&resend_request(2), 0);
    assert_eq!(r.frames, vec![vec![0, 2, 0, b'r'], vec![0, 3, 0, b'r']]);
    assert_eq!(tx.in_flight(), 4);
}
