use journald_forensic::{
    is_plausible_object_header, parse_journal_magic, parse_object_header, scan_for_entry_objects,
    scan_for_journal_magic,
};

#[test]
fn scan_empty_returns_empty() {
    assert!(scan_for_journal_magic(&[]).is_empty());
}

#[test]
fn scan_finds_magic_at_offset_zero() {
    let mut buf = vec![0u8; 64];
    buf[..8].copy_from_slice(b"LPKSHHRH");
    let offsets = scan_for_journal_magic(&buf);
    assert_eq!(offsets, vec![0u64]);
}

#[test]
fn scan_finds_magic_at_nonzero_offset() {
    let mut buf = vec![0u8; 64];
    buf[16..24].copy_from_slice(b"LPKSHHRH");
    let offsets = scan_for_journal_magic(&buf);
    assert_eq!(offsets, vec![16u64]);
}

#[test]
fn scan_finds_multiple_magic_occurrences() {
    let mut buf = vec![0u8; 128];
    buf[0..8].copy_from_slice(b"LPKSHHRH");
    buf[64..72].copy_from_slice(b"LPKSHHRH");
    let offsets = scan_for_journal_magic(&buf);
    assert_eq!(offsets, vec![0u64, 64u64]);
}

#[test]
fn is_plausible_object_header_accepts_valid_type() {
    let mut buf = [0u8; 16];
    buf[0] = 3; // Entry
    buf[8..16].copy_from_slice(&128u64.to_le_bytes()); // size = 128
    assert!(is_plausible_object_header(&buf));
}

#[test]
fn is_plausible_object_header_rejects_zero_size() {
    let mut buf = [0u8; 16];
    buf[0] = 3; // Entry
    // size remains 0
    assert!(!is_plausible_object_header(&buf));
}

#[test]
fn is_plausible_object_header_rejects_unknown_type() {
    let mut buf = [0u8; 16];
    buf[0] = 99; // unknown
    buf[8..16].copy_from_slice(&128u64.to_le_bytes());
    assert!(!is_plausible_object_header(&buf));
}

#[test]
fn is_plausible_object_header_too_short_returns_false() {
    assert!(!is_plausible_object_header(&[3u8; 8]));
}

#[test]
fn scan_for_entry_objects_finds_type3_header() {
    // Build a minimal byte buffer with an Entry object header at offset 32
    let mut buf = vec![0u8; 64];
    buf[32] = 3; // type = Entry
    buf[33] = 0; // flags
    // reserved bytes 34..39 remain 0
    buf[40..48].copy_from_slice(&64u64.to_le_bytes()); // size = 64
    let entries = scan_for_entry_objects(&buf);
    assert!(!entries.is_empty());
    let e = entries.iter().find(|e| e.offset == 32).expect("entry at offset 32");
    assert_eq!(e.object_type, 3);
    assert_eq!(e.size, 64);
}

#[test]
fn scan_for_entry_objects_empty_returns_empty() {
    assert!(scan_for_entry_objects(&[]).is_empty());
}

// ----- further cases -----

#[test]
fn scan_magic_at_the_very_end_and_overlapping_prefixes() {
    let mut buf = b"LPKSLPKSHHRH".to_vec();
    let n = buf.len();
    buf.extend_from_slice(b"LPKSHHR"); // truncated magic at the end is not a match
    assert_eq!(scan_for_journal_magic(&buf), vec![4u64]);
    assert_eq!(scan_for_journal_magic(&buf[..n]), vec![4u64]);
    assert!(scan_for_journal_magic(b"LPKSHHR").is_empty());
}

#[test]
fn every_magic_offset_parses_as_magic() {
    let mut buf = vec![7u8; 100];
    buf[3..11].copy_from_slice(b"LPKSHHRH");
    buf[50..58].copy_from_slice(b"LPKSHHRH");
    let offsets = scan_for_journal_magic(&buf);
    assert_eq!(offsets, vec![3u64, 50]);
    for o in offsets {
        assert!(parse_journal_magic(&buf[o as usize..]).is_ok());
    }
}

#[test]
fn carved_entries_are_aligned_and_raw_is_cut_at_the_end() {
    let mut buf = vec![0u8; 96];
    // an Entry at 8 of size 32, an unaligned type byte 3 at 41 that is skipped,
    // and an Entry at 80 whose size runs past the end
    buf[8] = 3;
    buf[16..24].copy_from_slice(&32u64.to_le_bytes());
    buf[41] = 3;
    buf[49..57].copy_from_slice(&32u64.to_le_bytes());
    buf[80] = 3;
    buf[88..96].copy_from_slice(&1000u64.to_le_bytes());
    let entries = scan_for_entry_objects(&buf);
    let offsets: Vec<u64> = entries.iter().map(|e| e.offset).collect();
    assert_eq!(offsets, vec![8, 80]);
    assert_eq!(entries[0].raw, buf[8..40].to_vec());
    assert_eq!(entries[1].size, 1000);
    assert_eq!(entries[1].raw, buf[80..96].to_vec());
    for e in &entries {
        assert!(is_plausible_object_header(&buf[e.offset as usize..]));
    }
}

#[test]
fn plausible_header_with_type_seven_and_any_flags() {
    let mut buf = [0u8; 16];
    buf[0] = 7;
    buf[1] = 0xff;
    buf[8] = 1;
    assert!(is_plausible_object_header(&buf));
    buf[0] = 8;
    assert!(!is_plausible_object_header(&buf));
}

#[test]
fn parsed_header_with_size_is_plausible() {
    for t in 0..=7u8 {
        let mut buf = [0u8; 16];
        buf[0] = t;
        buf[8] = 24;
        assert!(parse_object_header(&buf).is_ok());
        assert!(is_plausible_object_header(&buf));
    }
}
