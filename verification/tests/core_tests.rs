use journald_forensic::{JournalCursor, JournalEntry, JournalError, JournalField, JournalFieldValue};

fn make_entry_with_fields(fields: Vec<(&str, &str)>) -> JournalEntry {
    JournalEntry {
        seqnum: 1,
        realtime_us: 0,
        monotonic_us: 0,
        boot_id: [0u8; 16],
        fields: fields
            .into_iter()
            .map(|(k, v)| JournalField {
                key: k.to_string(),
                value: JournalFieldValue::Text(v.to_string()),
            })
            .collect(),
    }
}

#[test]
fn entry_field_lookup_by_name() {
    let entry = make_entry_with_fields(vec![("MESSAGE", "hello world"), ("_PID", "42")]);
    assert_eq!(entry.field("MESSAGE"), Some("hello world"));
    assert_eq!(entry.field("_PID"), Some("42"));
    assert_eq!(entry.field("MISSING"), None);
}

#[test]
fn entry_message_convenience() {
    let entry = make_entry_with_fields(vec![("MESSAGE", "test message")]);
    assert_eq!(entry.message(), Some("test message"));
}

#[test]
fn entry_priority_parses_u8() {
    let entry = make_entry_with_fields(vec![("PRIORITY", "6")]);
    assert_eq!(entry.priority(), Some(6u8));
}

#[test]
fn entry_priority_returns_none_when_absent() {
    let entry = make_entry_with_fields(vec![]);
    assert_eq!(entry.priority(), None);
}

#[test]
fn entry_pid_parses_u32() {
    let entry = make_entry_with_fields(vec![("_PID", "1234")]);
    assert_eq!(entry.pid(), Some(1234u32));
}

#[test]
fn entry_pid_returns_none_when_absent() {
    let entry = make_entry_with_fields(vec![]);
    assert_eq!(entry.pid(), None);
}

#[test]
fn cursor_parse_roundtrip() {
    // All-zero UUIDs, seqnum=1, all others 0
    let cursor_str = "s=00000000000000000000000000000000;i=1;b=00000000000000000000000000000000;m=0;t=0;x=0";
    let cursor = JournalCursor::parse(cursor_str).expect("parse should succeed");
    assert_eq!(cursor.seqnum, 1);
    assert_eq!(cursor.seqnum_id, [0u8; 16]);
    assert_eq!(cursor.boot_id, [0u8; 16]);
    assert_eq!(cursor.monotonic_us, 0);
    assert_eq!(cursor.realtime_us, 0);
    assert_eq!(cursor.xor_hash, 0);
    let roundtrip = cursor.to_string();
    assert_eq!(roundtrip, cursor_str);
}

#[test]
fn cursor_parse_invalid_returns_err() {
    let result = JournalCursor::parse("not-a-cursor");
    assert!(result.is_err());
}

#[test]
fn journal_field_value_text_accessible() {
    let val = JournalFieldValue::Text("hello".to_string());
    match val {
        JournalFieldValue::Text(s) => assert_eq!(s, "hello"),
        JournalFieldValue::Binary(_) => panic!("expected Text"),
    }
}

#[test]
fn journal_error_invalid_magic_display() {
    let err = JournalError::InvalidMagic { found: *b"BADMAGIC" };
    let display = err.to_string();
    assert!(display.contains("LPKSHHRH") || display.contains("invalid magic"));
}

// ----- further cases -----

#[test]
fn field_first_match_decides_and_binary_is_none() {
    let entry = JournalEntry {
        seqnum: 9,
        realtime_us: 0,
        monotonic_us: 0,
        boot_id: [0u8; 16],
        fields: vec![
            JournalField { key: "BLOB".to_string(), value: JournalFieldValue::Binary(vec![0, 1, 2]) },
            JournalField {
                key: "SYSLOG_IDENTIFIER".to_string(),
                value: JournalFieldValue::Text("sshd".to_string()),
            },
            JournalField { key: "BLOB".to_string(), value: JournalFieldValue::Text("later".to_string()) },
            JournalField {
                key: "SYSLOG_IDENTIFIER".to_string(),
                value: JournalFieldValue::Text("other".to_string()),
            },
        ],
    };
    assert_eq!(entry.field("BLOB"), None);
    assert_eq!(entry.syslog_identifier(), Some("sshd"));
    assert_eq!(entry.message(), None);
}

#[test]
fn numeric_fields_follow_str_parse() {
    let cases = ["0", "+7", "255", "256", "-1", "", "+", " 6", "6 ", "007", "x"];
    for c in cases {
        let entry = make_entry_with_fields(vec![("PRIORITY", c), ("_PID", c)]);
        assert_eq!(entry.priority(), c.parse::<u8>().ok(), "priority of {:?}", c);
        assert_eq!(entry.pid(), c.parse::<u32>().ok(), "pid of {:?}", c);
    }
    let big = make_entry_with_fields(vec![("_PID", "4294967295")]);
    assert_eq!(big.pid(), Some(u32::MAX));
    let over = make_entry_with_fields(vec![("_PID", "4294967296")]);
    assert_eq!(over.pid(), None);
}

#[test]
fn cursor_with_every_field_roundtrips() {
    let c = JournalCursor {
        seqnum_id: [0xab; 16],
        seqnum: 0x1f2e,
        boot_id: [0, 1, 2, 3, 4, 5, 6, 7, 8, 9, 10, 11, 12, 13, 14, 255],
        monotonic_us: u64::MAX,
        realtime_us: 1_718_900_000_000_000,
        xor_hash: 0xdead_beef,
    };
    let text = c.to_string();
    assert_eq!(
        text,
        "s=abababababababababababababababab;i=1f2e;b=000102030405060708090a0b0c0d0eff;m=ffffffffffffffff;t=61b5497e78800;x=deadbeef"
    );
    assert_eq!(JournalCursor::parse(&text).unwrap(), c);
}

#[test]
fn cursor_accepts_uppercase_and_leading_zeros() {
    let c = JournalCursor::parse(
        "s=ABABABABABABABABABABABABABABABAB;i=0001F;b=00000000000000000000000000000001;m=A;t=0;x=Ff",
    )
    .unwrap();
    assert_eq!(c.seqnum_id, [0xab; 16]);
    assert_eq!(c.seqnum, 0x1f);
    assert_eq!(c.boot_id[15], 1);
    assert_eq!(c.monotonic_us, 10);
    assert_eq!(c.xor_hash, 0xff);
}

#[test]
fn cursor_rejections() {
    let good = "s=00000000000000000000000000000000;i=1;b=00000000000000000000000000000000;m=0;t=0;x=0";
    assert!(JournalCursor::parse(good).is_ok());
    let bad = [
        "",
        "s=0000000000000000000000000000000;i=1;b=00000000000000000000000000000000;m=0;t=0;x=0",
        "s=00000000000000000000000000000000;i=;b=00000000000000000000000000000000;m=0;t=0;x=0",
        "s=00000000000000000000000000000000;i=1;b=00000000000000000000000000000000;m=0;t=0",
        "s=00000000000000000000000000000000;i=1;b=00000000000000000000000000000000;m=0;t=0;x=0;",
        "s=00000000000000000000000000000000;i=10000000000000000;b=00000000000000000000000000000000;m=0;t=0;x=0",
        "i=1;s=00000000000000000000000000000000;b=00000000000000000000000000000000;m=0;t=0;x=0",
        "s=0000000000000000000000000000000g;i=1;b=00000000000000000000000000000000;m=0;t=0;x=0",
    ];
    for b in bad {
        match JournalCursor::parse(b) {
            Err(JournalError::InvalidCursor { cursor }) => assert_eq!(cursor, b),
            other => panic!("expected InvalidCursor for {:?}, got {:?}", b, other),
        }
    }
}
