use soa_lab::wal::{apply, batch_bytes, crc32, recover};

#[test]
fn crc32_matches_the_standard_check_value() {
    assert_eq!(crc32(b"123456789"), 0xCBF4_3926);
    assert_eq!(crc32(b""), 0);
    assert_eq!(crc32(b"a"), 0xE8B7_BE43);
}

#[test]
fn batch_layout_is_count_events_marker() {
    let b = batch_bytes(&[1, 2]);
    assert_eq!(b.len(), 4 + 16 + 4);
    assert_eq!(&b[..4], &2u32.to_le_bytes());
    assert_eq!(&b[4..12], &1u64.to_le_bytes());
    let crc = crc32(&b[..20]);
    assert_eq!(&b[20..], &crc.to_le_bytes());
}

#[test]
fn torn_tail_recovers_to_last_committed_world() {
    let mut log = Vec::new();
    let mut committed = 0u64;
    for i in 0..100u64 {
        let evs: Vec<u64> = (0..5).map(|k| i * 10 + k).collect();
        log.extend_from_slice(&batch_bytes(&evs));
        for &e in &evs {
            committed = apply(committed, e);
        }
    }
    // A 101st batch begins but its marker never lands.
    log.extend_from_slice(&5u32.to_le_bytes());
    log.extend_from_slice(&1000u64.to_le_bytes());
    let (world, n) = recover(&log);
    assert_eq!(n, 100, "must discard the torn batch");
    assert_eq!(world, committed, "must recover the last committed world");
}

#[test]
fn ack_after_marker_never_over_acknowledges() {
    // Ack before the marker: the 51st batch is acknowledged, then the crash loses it.
    let mut log = Vec::new();
    for i in 0..50u64 {
        log.extend_from_slice(&batch_bytes(&[i]));
    }
    log.extend_from_slice(&1u32.to_le_bytes());
    log.extend_from_slice(&50u64.to_le_bytes());
    let (_w, recovered) = recover(&log);
    let acked_before = 51;
    let acked_after = 50;
    assert!(acked_before > recovered);
    assert_eq!(acked_after, recovered);
}

#[test]
fn a_corrupted_marker_stops_recovery() {
    let mut log = batch_bytes(&[7, 8]);
    log.extend_from_slice(&batch_bytes(&[9]));
    let last = log.len() - 1;
    log[last] ^= 1;
    let (world, n) = recover(&log);
    assert_eq!(n, 1);
    assert_eq!(world, apply(apply(0, 7), 8));
    assert_eq!(recover(&[]), (0, 0));
}

#[test]
fn apply_is_the_fnv_step() {
    assert_eq!(apply(0, 0), 0);
    assert_eq!(apply(1, 0), 0x0100_0000_01b3);
    assert_eq!(apply(0xff, 0xff), 0);
}
