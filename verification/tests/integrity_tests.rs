use journald_forensic::{
    detect_online_state, detect_sequence_gaps, detect_timestamp_regressions, detect_truncation,
    parse_header, IntegrityKind, JournalState,
};

#[test]
fn no_gaps_in_consecutive_seqnums_returns_empty() {
    let seqnums = vec![1u64, 2, 3, 4, 5];
    let indicators = detect_sequence_gaps(&seqnums);
    assert!(indicators.is_empty());
}

#[test]
fn single_gap_detected() {
    // [1, 2, 5] → gap at 3-4
    let seqnums = vec![1u64, 2, 5];
    let indicators = detect_sequence_gaps(&seqnums);
    assert_eq!(indicators.len(), 1);
    assert_eq!(indicators[0].kind, IntegrityKind::SequenceGap);
    assert_eq!(indicators[0].seqnum_start, Some(2));
    assert_eq!(indicators[0].seqnum_end, Some(5));
}

#[test]
fn multiple_gaps_detected() {
    // [1, 3, 7] → two gaps
    let seqnums = vec![1u64, 3, 7];
    let indicators = detect_sequence_gaps(&seqnums);
    assert_eq!(indicators.len(), 2);
    assert!(indicators.iter().all(|i| i.kind == IntegrityKind::SequenceGap));
}

#[test]
fn gap_count_is_correct() {
    // gap from 2 to 5 = 2 deleted entries (3 and 4)
    let seqnums = vec![2u64, 5];
    let indicators = detect_sequence_gaps(&seqnums);
    assert_eq!(indicators.len(), 1);
    assert_eq!(indicators[0].seqnum_start, Some(2));
    assert_eq!(indicators[0].seqnum_end, Some(5));
    // description should mention the count
    assert!(indicators[0].description.contains('2') || indicators[0].description.contains("deleted"));
}

#[test]
fn no_regressions_in_sorted_timestamps_returns_empty() {
    let ts = vec![100u64, 200, 300, 400];
    let indicators = detect_timestamp_regressions(&ts);
    assert!(indicators.is_empty());
}

#[test]
fn timestamp_regression_detected() {
    // [100, 200, 150] → regression at index 2
    let ts = vec![100u64, 200, 150];
    let indicators = detect_timestamp_regressions(&ts);
    assert_eq!(indicators.len(), 1);
    assert_eq!(indicators[0].kind, IntegrityKind::TimestampRegression);
}

#[test]
fn truncation_detected_when_file_smaller_than_expected() {
    // tail_object at offset 1000, last object size 256 → need at least 1256 bytes
    let ind = detect_truncation(500, 1000, 256);
    assert!(ind.is_some());
    assert_eq!(ind.unwrap().kind, IntegrityKind::Truncation);
}

#[test]
fn no_truncation_when_file_size_sufficient() {
    let ind = detect_truncation(2000, 1000, 256);
    assert!(ind.is_none());
}

#[test]
fn online_state_is_suspicious() {
    let ind = detect_online_state(1);
    assert!(ind.is_some());
    assert_eq!(ind.unwrap().kind, IntegrityKind::InvalidState);
}

#[test]
fn offline_state_is_clean() {
    let ind = detect_online_state(0);
    assert!(ind.is_none());
}

#[test]
fn archived_state_is_clean() {
    let ind = detect_online_state(2);
    assert!(ind.is_none());
}

// ----- further cases -----

#[test]
fn gap_descriptions_and_counts() {
    let ind = detect_sequence_gaps(&[2, 5]);
    assert_eq!(ind[0].description, "sequence gap: 2 entries deleted between seqnum 2 and 5");
    // total deleted = last - first + 1 - len for strictly increasing input
    let s = [10u64, 11, 15, 16, 30];
    let total: u64 = detect_sequence_gaps(&s)
        .iter()
        .map(|i| i.seqnum_end.unwrap() - i.seqnum_start.unwrap() - 1)
        .sum();
    assert_eq!(total, 30 - 10 + 1 - 5);
}

#[test]
fn gaps_ignore_repeats_and_decreases_and_extremes() {
    assert!(detect_sequence_gaps(&[5, 5, 4, 3]).is_empty());
    assert!(detect_sequence_gaps(&[]).is_empty());
    assert!(detect_sequence_gaps(&[7]).is_empty());
    let ind = detect_sequence_gaps(&[0, u64::MAX]);
    assert_eq!(ind.len(), 1);
    assert_eq!(ind[0].seqnum_start, Some(0));
    assert_eq!(ind[0].seqnum_end, Some(u64::MAX));
}

#[test]
fn regression_descriptions_and_positions() {
    let ind = detect_timestamp_regressions(&[100, 200, 150, 150, 10]);
    assert_eq!(ind.len(), 2);
    assert_eq!(ind[0].description, "timestamp regression at index 2: 150 < 200");
    assert_eq!(ind[1].description, "timestamp regression at index 4: 10 < 150");
    assert_eq!(ind[0].seqnum_start, None);
    assert!(detect_timestamp_regressions(&[3, 3, 3]).is_empty());
}

#[test]
fn truncation_boundaries_and_overflow() {
    assert!(detect_truncation(1256, 1000, 256).is_none());
    assert!(detect_truncation(1255, 1000, 256).is_some());
    // the sum exceeds u64: every file size is too small
    let ind = detect_truncation(u64::MAX, u64::MAX, 1).unwrap();
    assert_eq!(
        ind.description,
        format!(
            "file truncated: size {} is less than tail object offset {} + last object size 1",
            u64::MAX,
            u64::MAX
        )
    );
}

#[test]
fn only_state_one_is_flagged() {
    for b in 0..=255u8 {
        assert_eq!(detect_online_state(b).is_some(), b == 1);
    }
    assert_eq!(
        detect_online_state(1).unwrap().description,
        "journal state is ONLINE: the file was not cleanly closed"
    );
}

#[test]
fn online_indicator_agrees_with_parsed_header_state() {
    for state in 0..=2u8 {
        let mut buf = vec![0u8; 240];
        buf[..8].copy_from_slice(b"LPKSHHRH");
        buf[16] = state;
        let h = parse_header(&buf).unwrap();
        assert_eq!(h.state == JournalState::Online, detect_online_state(buf[16]).is_some());
    }
}
