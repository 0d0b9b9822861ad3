use journald_forensic::{
    object_type_from_byte, parse_header, parse_journal_magic, parse_object_header, JournalError,
    JournalObjectType, JournalState, JOURNAL_MAGIC,
};

#[test]
fn magic_bytes_are_correct() {
    assert_eq!(JOURNAL_MAGIC, b"LPKSHHRH");
}

#[test]
fn parse_magic_accepts_valid_header() {
    let mut buf = vec![0u8; 256];
    buf[..8].copy_from_slice(b"LPKSHHRH");
    assert!(parse_journal_magic(&buf).is_ok());
}

#[test]
fn parse_magic_rejects_invalid() {
    let buf = b"NOTAFILE".to_vec();
    assert!(parse_journal_magic(&buf).is_err());
}

#[test]
fn parse_magic_empty_buffer_returns_err() {
    assert!(parse_journal_magic(&[]).is_err());
}

#[test]
fn object_type_from_byte_all_known_types() {
    assert!(matches!(object_type_from_byte(0), Ok(JournalObjectType::Unused)));
    assert!(matches!(object_type_from_byte(1), Ok(JournalObjectType::Data)));
    assert!(matches!(object_type_from_byte(2), Ok(JournalObjectType::Field)));
    assert!(matches!(object_type_from_byte(3), Ok(JournalObjectType::Entry)));
    assert!(matches!(object_type_from_byte(4), Ok(JournalObjectType::DataHashTable)));
    assert!(matches!(object_type_from_byte(5), Ok(JournalObjectType::FieldHashTable)));
    assert!(matches!(object_type_from_byte(6), Ok(JournalObjectType::EntryArray)));
    assert!(matches!(object_type_from_byte(7), Ok(JournalObjectType::Tag)));
}

#[test]
fn object_type_from_byte_unknown_returns_err() {
    assert!(object_type_from_byte(99).is_err());
}

#[test]
fn parse_object_header_reads_type_flags_size() {
    // ObjectHeader layout: type(1), flags(1), reserved(6), size(8) — little-endian
    let mut buf = [0u8; 16];
    buf[0] = 3; // Entry type
    buf[1] = 0; // flags = no compression
    // bytes 2-7: reserved (zero)
    // bytes 8-15: size = 128 as little-endian u64
    buf[8..16].copy_from_slice(&128u64.to_le_bytes());
    let hdr = parse_object_header(&buf).unwrap();
    assert!(matches!(hdr.object_type, JournalObjectType::Entry));
    assert_eq!(hdr.size, 128);
    assert_eq!(hdr.flags, 0);
}

#[test]
fn parse_object_header_too_short_returns_err() {
    let buf = [0u8; 8];
    assert!(parse_object_header(&buf).is_err());
}

// ----- further cases -----

fn header_bytes(state: u8) -> Vec<u8> {
    let mut buf = vec![0u8; 240];
    buf[..8].copy_from_slice(b"LPKSHHRH");
    buf[8..12].copy_from_slice(&5u32.to_le_bytes());
    buf[12..16].copy_from_slice(&0x0102_0304u32.to_le_bytes());
    buf[16] = state;
    for i in 0..16 {
        buf[40 + i] = i as u8; // machine_id
        buf[56 + i] = 0x10 + i as u8; // boot_id
        buf[72 + i] = 0x20 + i as u8; // seqnum_id
    }
    buf[144..152].copy_from_slice(&11u64.to_le_bytes());
    buf[152..160].copy_from_slice(&7u64.to_le_bytes());
    buf[160..168].copy_from_slice(&42u64.to_le_bytes());
    buf[168..176].copy_from_slice(&36u64.to_le_bytes());
    buf[184..192].copy_from_slice(&1_718_900_000_000_000u64.to_le_bytes());
    buf[192..200].copy_from_slice(&1_718_900_999_000_000u64.to_le_bytes());
    buf
}

#[test]
fn parse_header_reads_every_field() {
    let h = parse_header(&header_bytes(2)).unwrap();
    assert_eq!(h.compatible_flags, 5);
    assert_eq!(h.incompatible_flags, 0x0102_0304);
    assert_eq!(h.state, JournalState::Archived);
    assert_eq!(h.machine_id[0], 0);
    assert_eq!(h.machine_id[15], 15);
    assert_eq!(h.boot_id[3], 0x13);
    assert_eq!(h.seqnum_id[15], 0x2f);
    assert_eq!(h.n_objects, 11);
    assert_eq!(h.n_entries, 7);
    assert_eq!(h.tail_entry_seqnum, 42);
    assert_eq!(h.head_entry_seqnum, 36);
    assert_eq!(h.head_entry_realtime, 1_718_900_000_000_000);
    assert_eq!(h.tail_entry_realtime, 1_718_900_999_000_000);
}

#[test]
fn parse_header_states() {
    assert_eq!(parse_header(&header_bytes(0)).unwrap().state, JournalState::Offline);
    assert_eq!(parse_header(&header_bytes(1)).unwrap().state, JournalState::Online);
    assert!(matches!(
        parse_header(&header_bytes(9)),
        Err(JournalError::UnknownState { state: 9 })
    ));
}

#[test]
fn parse_header_rejects_bad_magic_and_short_buffers() {
    let mut bad = header_bytes(0);
    bad[0] = b'X';
    assert!(matches!(parse_header(&bad), Err(JournalError::InvalidMagic { found }) if &found == b"XPKSHHRH"));
    let short = header_bytes(0)[..100].to_vec();
    assert!(matches!(
        parse_header(&short),
        Err(JournalError::BufferTooShort { needed: 208, got: 100 })
    ));
    assert!(matches!(
        parse_header(b"LPKS"),
        Err(JournalError::BufferTooShort { needed: 8, got: 4 })
    ));
}

#[test]
fn parse_magic_error_variants() {
    assert!(matches!(
        parse_journal_magic(&[1, 2, 3]),
        Err(JournalError::BufferTooShort { needed: 8, got: 3 })
    ));
    assert!(matches!(
        parse_journal_magic(b"NOTAFILE"),
        Err(JournalError::InvalidMagic { found }) if &found == b"NOTAFILE"
    ));
}

#[test]
fn parse_object_header_error_variants() {
    assert!(matches!(
        parse_object_header(&[0u8; 8]),
        Err(JournalError::BufferTooShort { needed: 16, got: 8 })
    ));
    let mut buf = [0u8; 16];
    buf[0] = 8;
    assert!(matches!(
        parse_object_header(&buf),
        Err(JournalError::InvalidObjectType { type_byte: 8 })
    ));
    buf[0] = 1;
    buf[1] = 8;
    assert!(matches!(
        parse_object_header(&buf),
        Err(JournalError::UnknownCompression { flags: 8 })
    ));
    buf[1] = 4; // ZSTD
    buf[8..16].copy_from_slice(&0x0102_0304_0506_0708u64.to_le_bytes());
    let h = parse_object_header(&buf).unwrap();
    assert_eq!(h.object_type, JournalObjectType::Data);
    assert_eq!(h.flags, 4);
    assert_eq!(h.size, 0x0102_0304_0506_0708);
}

#[test]
fn error_messages() {
    assert_eq!(
        JournalError::BufferTooShort { needed: 16, got: 8 }.to_string(),
        "buffer too short: needed 16 bytes, got 8"
    );
    assert_eq!(
        JournalError::InvalidMagic { found: *b"BADMAGIC" }.to_string(),
        "invalid magic: expected LPKSHHRH, found [42, 41, 44, 4d, 41, 47, 49, 43]"
    );
    assert_eq!(
        JournalError::InvalidObjectType { type_byte: 99 }.to_string(),
        "invalid object type byte: 99"
    );
    assert_eq!(
        JournalError::UnknownCompression { flags: 200 }.to_string(),
        "unknown compression flags: 200"
    );
    assert_eq!(
        JournalError::InvalidCursor { cursor: "x".to_string() }.to_string(),
        "invalid cursor string: 'x'"
    );
    let io = JournalError::Io(std::io::Error::new(std::io::ErrorKind::Other, "disk gone"));
    assert_eq!(io.to_string(), "I/O error: disk gone");
}
