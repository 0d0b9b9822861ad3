use journald_forensic::{field_names, scan_entries, search_entries, split_filter};

/// Appends an object of `kind` whose bytes after the 16-byte header are `body`;
/// returns its offset.
fn push_object(buf: &mut Vec<u8>, kind: u8, body: &[u8]) -> u64 {
    let off = buf.len() as u64;
    let size = 16 + body.len() as u64;
    buf.push(kind);
    buf.push(0);
    buf.extend_from_slice(&[0u8; 6]);
    buf.extend_from_slice(&size.to_le_bytes());
    buf.extend_from_slice(body);
    off
}

fn data_object(buf: &mut Vec<u8>, payload: &[u8]) -> u64 {
    let mut body = vec![0u8; 48]; // hash, next_hash, next_field, entry, entry_array, n_entries
    body.extend_from_slice(payload);
    push_object(buf, 1, &body)
}

fn entry_object(buf: &mut Vec<u8>, seqnum: u64, realtime: u64, monotonic: u64, items: &[u64]) -> u64 {
    let mut body = Vec::new();
    body.extend_from_slice(&seqnum.to_le_bytes());
    body.extend_from_slice(&realtime.to_le_bytes());
    body.extend_from_slice(&monotonic.to_le_bytes());
    body.extend_from_slice(&[0u8; 16]); // boot id
    body.extend_from_slice(&[0u8; 8]); // xor hash
    for it in items {
        body.extend_from_slice(&it.to_le_bytes());
        body.extend_from_slice(&[0u8; 8]); // hash
    }
    push_object(buf, 3, &body)
}

fn journal() -> Vec<u8> {
    let mut buf = vec![0u8; 240];
    buf[..8].copy_from_slice(b"LPKSHHRH");
    buf[88..96].copy_from_slice(&240u64.to_le_bytes());
    let msg = data_object(&mut buf, b"MESSAGE=hello");
    let prio = data_object(&mut buf, b"PRIORITY=3");
    let pid = data_object(&mut buf, b"_PID=1");
    let noeq = data_object(&mut buf, b"NOEQUALS");
    entry_object(&mut buf, 1, 1000, 10, &[msg, prio]);
    entry_object(&mut buf, 2, 2000, 20, &[pid, noeq, 99999, prio]);
    buf
}

#[test]
fn scan_entries_reads_entries_and_fields_in_order() {
    let data = journal();
    let entries = scan_entries(&data);
    assert_eq!(entries.len(), 2);
    assert_eq!((entries[0].seqnum, entries[0].realtime_us, entries[0].monotonic_us), (1, 1000, 10));
    let f0: Vec<(String, Vec<u8>)> =
        entries[0].fields.iter().map(|f| (f.key.clone(), f.value.clone())).collect();
    assert_eq!(
        f0,
        vec![("MESSAGE".to_string(), b"hello".to_vec()), ("PRIORITY".to_string(), b"3".to_vec())]
    );
    let f1: Vec<(String, Vec<u8>)> =
        entries[1].fields.iter().map(|f| (f.key.clone(), f.value.clone())).collect();
    assert_eq!(
        f1,
        vec![("_PID".to_string(), b"1".to_vec()), ("PRIORITY".to_string(), b"3".to_vec())]
    );
}

#[test]
fn scan_entries_small_or_headerless_input_is_empty() {
    assert!(scan_entries(&[]).is_empty());
    assert!(scan_entries(&[0u8; 95]).is_empty());
    assert!(scan_entries(&[0u8; 240]).is_empty());
    // header_size pointing past the end
    let mut data = journal();
    let n = data.len() as u64;
    data[88..96].copy_from_slice(&n.to_le_bytes());
    assert!(scan_entries(&data).is_empty());
}

#[test]
fn scan_entries_lossy_key_and_truncated_entry() {
    let mut buf = vec![0u8; 240];
    buf[88..96].copy_from_slice(&240u64.to_le_bytes());
    let bad = data_object(&mut buf, b"K\xffY=v");
    let e = entry_object(&mut buf, 5, 6, 7, &[bad]);
    // cut inside the item list: the entry is still read, without the cut item
    buf.truncate(e as usize + 72);
    let entries = scan_entries(&buf);
    assert_eq!(entries.len(), 1);
    assert_eq!(entries[0].seqnum, 5);
    assert!(entries[0].fields.is_empty());
    buf.extend_from_slice(&[0u8; 8]);
    let entries = scan_entries(&buf);
    assert_eq!(entries[0].fields.len(), 1);
    assert_eq!(entries[0].fields[0].key, "K\u{fffd}Y");
    assert_eq!(entries[0].fields[0].value, b"v".to_vec());
}

#[test]
fn split_filter_at_first_equals() {
    assert_eq!(split_filter("PRIORITY=3"), Some((b"PRIORITY".to_vec(), b"3".to_vec())));
    assert_eq!(split_filter("A=b=c"), Some((b"A".to_vec(), b"b=c".to_vec())));
    assert_eq!(split_filter("=x"), Some((vec![], b"x".to_vec())));
    assert_eq!(split_filter("NOFILTER"), None);
}

#[test]
fn search_finds_matching_entries() {
    let data = journal();
    let entries = scan_entries(&data);
    assert_eq!(search_entries(&entries, b"PRIORITY", b"3"), vec![0, 1]);
    assert_eq!(search_entries(&entries, b"_PID", b"1"), vec![1]);
    assert_eq!(search_entries(&entries, b"MESSAGE", b"hell"), Vec::<usize>::new());
    assert_eq!(search_entries(&entries, b"NOEQUALS", b""), Vec::<usize>::new());
}

#[test]
fn field_names_sorted_and_unique() {
    let data = journal();
    let entries = scan_entries(&data);
    assert_eq!(field_names(&entries), vec!["MESSAGE", "PRIORITY", "_PID"]);
    assert!(field_names(&[]).is_empty());
}

#[test]
fn scan_entries_single_entry_with_ascii_field_name() {
    let mut d = vec![0u8; 400];
    d[240] = 3;
    d[248] = 80;
    d[256] = 3;
    d[264..272].copy_from_slice(&1000u64.to_le_bytes());
    d[272] = 5;
    d[304..312].copy_from_slice(&320u64.to_le_bytes());
    d[320] = 1;
    d[328] = 74;
    d[384..394].copy_from_slice(b"MESSAGE=hi");
    let entries = scan_entries(&d);
    let got: Vec<(u64, u64, u64, Vec<(String, Vec<u8>)>)> = entries
        .iter()
        .map(|e| {
            (
                e.seqnum,
                e.realtime_us,
                e.monotonic_us,
                e.fields.iter().map(|f| (f.key.clone(), f.value.clone())).collect(),
            )
        })
        .collect();
    assert_eq!(got, vec![(3u64, 1000u64, 5u64, vec![("MESSAGE".to_string(), b"hi".to_vec())])]);
}
