//! A best-effort walk over the object arena of a journal file: every Entry
//! object met when stepping through the objects after the header, with the
//! `KEY=value` payloads of the Data objects its items point at. It does not
//! follow hash table chains. Also the filters that the `timeline`, `fields` and
//! `search` views of a journal apply to those entries.
use vstd::prelude::*;
use vstd::slice::{slice_subrange, slice_to_vec};
use vstd::utf8::{decode_utf8, encode_utf8, encode_utf8_decode_utf8, valid_utf8};
use crate::binary::{
    le_u64_at, object_header_at, object_header_ok, parse_object_header, read_u64_le,
    JournalObjectType,
};
use crate::carver::lemma_le_u64_skip;

verus! {

/// The size of the header prefix that holds `header_size` (offset 88, eight bytes).
pub const MIN_HEADER: usize = 96;

/// The smallest offset at which the arena is walked.
pub const MIN_ARENA_START: u64 = 240;

/// Where an Entry object's items start, from the start of the object.
pub const ENTRY_ITEMS_OFFSET: usize = 64;

/// Where a Data object's payload starts, from the start of the object.
pub const DATA_PAYLOAD_OFFSET: usize = 64;

/// One `KEY=value` field read from a Data object.
#[derive(Debug)]
pub struct ArenaField {
    pub key: String,
    pub value: Vec<u8>,
}

/// One Entry object found by the arena walk.
#[derive(Debug)]
pub struct ArenaEntry {
    pub seqnum: u64,
    pub realtime_us: u64,
    pub monotonic_us: u64,
    pub fields: Vec<ArenaField>,
}

/// A field as characters and bytes.
pub struct FieldView {
    pub key: Seq<char>,
    pub value: Seq<u8>,
}

/// An entry as numbers and field views.
pub struct EntryView {
    pub seqnum: u64,
    pub realtime_us: u64,
    pub monotonic_us: u64,
    pub fields: Seq<FieldView>,
}

impl View for ArenaField {
    type V = FieldView;

    open spec fn view(&self) -> FieldView {
        FieldView { key: self.key@, value: self.value@ }
    }
}

impl View for ArenaEntry {
    type V = EntryView;

    open spec fn view(&self) -> EntryView {
        EntryView {
            seqnum: self.seqnum,
            realtime_us: self.realtime_us,
            monotonic_us: self.monotonic_us,
            fields: self.fields@.map_values(|f: ArenaField| f@),
        }
    }
}

/// Names the text that `String::from_utf8_lossy` makes of `bytes`.
pub uninterp spec fn utf8_lossy(bytes: Seq<u8>) -> Seq<char>;

/// `String::from_utf8_lossy(bytes).into_owned()`: the text of `bytes` with every
/// invalid UTF-8 sequence replaced by U+FFFD. Claimed: the result is the named
/// function of the bytes, and valid UTF-8 comes through unchanged, as the std
/// documentation says; which replacements are made is not stated.
#[verifier::external_body]
fn decode_utf8_lossy(bytes: &[u8]) -> (s: String)
    ensures
        s@ == utf8_lossy(bytes@),
        valid_utf8(bytes@) ==> s@ == decode_utf8(bytes@),
{
    String::from_utf8_lossy(bytes).into_owned()
}

/// The text of a field name's bytes: their UTF-8 decoding when they are valid UTF-8,
/// else the lossy text that `String::from_utf8_lossy` makes of them.
pub open spec fn name_text(bytes: Seq<u8>) -> Seq<char> {
    if valid_utf8(bytes) {
        decode_utf8(bytes)
    } else {
        utf8_lossy(bytes)
    }
}

/// A field name written in ASCII reads as those very characters.
pub proof fn law_ascii_name_text(bytes: Seq<u8>)
    requires
        crate::text::all_ascii(bytes),
    ensures
        name_text(bytes) == crate::text::ascii_chars(bytes),
{
    let c = crate::text::ascii_chars(bytes);
    crate::text::lemma_ascii_encode(bytes);
    vstd::utf8::encode_utf8_valid_utf8(c);
    encode_utf8_decode_utf8(c);
}

/// The index of the first byte `x` at or after `i`, or the length of `s`.
pub open spec fn first_index(s: Seq<u8>, x: u8, i: int) -> int
    decreases s.len() - i,
{
    if i >= s.len() {
        s.len() as int
    } else if s[i] == x {
        i
    } else {
        first_index(s, x, i + 1)
    }
}

/// The smaller of two integers.
pub open spec fn min_int(a: int, b: int) -> int {
    if a <= b {
        a
    } else {
        b
    }
}

/// The field that the Data object at `off` holds: its payload (from byte 64 of the
/// object to its end, cut at the end of the data) split at the first `=`; nothing
/// when there is no readable Data object there, no payload, or no `=`.
pub open spec fn data_field(data: Seq<u8>, off: int) -> Option<FieldView> {
    if off + 16 > data.len() || !object_header_ok(data, off) {
        None
    } else {
        let h = object_header_at(data, off);
        let payload_start = off + 64;
        let payload_end = min_int(off + h.size as int, data.len() as int);
        if h.object_type != JournalObjectType::Data || payload_start >= payload_end {
            None
        } else {
            let payload = data.subrange(payload_start, payload_end);
            let eq = first_index(payload, 61, 0);
            if eq < payload.len() {
                Some(FieldView { key: name_text(payload.take(eq)), value: payload.skip(eq + 1) })
            } else {
                None
            }
        }
    }
}

/// The fields of the items from `item_pos` to `obj_end` (16 bytes each: the offset of
/// a Data object, then a hash), in item order.
pub open spec fn item_fields(data: Seq<u8>, item_pos: int, obj_end: int) -> Seq<FieldView>
    decreases obj_end - item_pos,
{
    if item_pos + 16 > obj_end {
        Seq::empty()
    } else {
        let rest = item_fields(data, item_pos + 16, obj_end);
        match data_field(data, le_u64_at(data, item_pos) as int) {
            Some(f) => seq![f] + rest,
            None => rest,
        }
    }
}

/// The entry read from the Entry object of `size` bytes at `pos`.
pub open spec fn entry_at(data: Seq<u8>, pos: int, size: int) -> EntryView {
    EntryView {
        seqnum: le_u64_at(data, pos + 16),
        realtime_us: le_u64_at(data, pos + 24),
        monotonic_us: le_u64_at(data, pos + 32),
        fields: item_fields(data, pos + 64, min_int(pos + size, data.len() as int)),
    }
}

/// The entries met by walking the objects from `pos`: an unreadable header or a
/// size under 16 steps 8 bytes; any other object steps its size; an Entry object
/// with its first 64 bytes inside the data is read.
pub open spec fn walk_from(data: Seq<u8>, pos: int) -> Seq<EntryView>
    decreases data.len() - pos,
{
    if pos < 0 || pos + 16 > data.len() {
        Seq::empty()
    } else {
        let ok = object_header_ok(data, pos);
        let h = object_header_at(data, pos);
        let size = h.size as int;
        let next = if !ok || size < 16 {
            pos + 8
        } else {
            pos + size
        };
        let here = if ok && size >= 16 && h.object_type == JournalObjectType::Entry && pos + 64
            <= data.len() {
            seq![entry_at(data, pos, size)]
        } else {
            Seq::empty()
        };
        let rest = if next + 16 <= data.len() {
            walk_from(data, next)
        } else {
            Seq::empty()
        };
        here + rest
    }
}

/// Where the walk starts: `header_size` (offset 88), but not before byte 240.
pub open spec fn arena_start(data: Seq<u8>) -> int {
    let h = le_u64_at(data, 88) as int;
    if h > 240 {
        h
    } else {
        240
    }
}

/// The entries of a journal file's bytes: none when the data cannot hold the
/// header size field or ends before the arena starts.
pub open spec fn spec_scan_entries(data: Seq<u8>) -> Seq<EntryView> {
    if data.len() < 96 || arena_start(data) >= data.len() {
        Seq::empty()
    } else {
        walk_from(data, arena_start(data))
    }
}

/// True when the entries `v` are, one for one and in order, the views `w`.
pub open spec fn entries_are(v: Seq<ArenaEntry>, w: Seq<EntryView>) -> bool {
    v.len() == w.len() && forall|k: int| 0 <= k < v.len() ==> #[trigger] v[k]@ == w[k]
}

/// A header read from a suffix is the header read at that offset.
pub proof fn lemma_header_at_offset(data: Seq<u8>, off: int)
    requires
        0 <= off <= data.len(),
    ensures
        object_header_ok(data.subrange(off, data.len() as int), 0) == object_header_ok(data, off),
        object_header_ok(data, off) ==> object_header_at(data.subrange(off, data.len() as int), 0)
            == object_header_at(data, off),
{
    let s = data.subrange(off, data.len() as int);
    assert(s =~= data.skip(off));
    if off + 16 <= data.len() {
        assert(s[0] == data[off]);
        assert(s[1] == data[off + 1]);
        lemma_le_u64_skip(data, off, 8);
    }
}

proof fn lemma_first_index_found(s: Seq<u8>, x: u8, i: int, m: int)
    requires
        0 <= i <= m <= s.len(),
        forall|q: int| i <= q < m ==> s[q] != x,
        m == s.len() || s[m] == x,
    ensures
        first_index(s, x, i) == m,
    decreases m - i,
{
    if i < m {
        lemma_first_index_found(s, x, i + 1, m);
    }
}

/// Reads the field of the Data object at `off`, as [`data_field`].
fn read_data_field(data: &[u8], off: u64) -> (res: Option<ArenaField>)
    ensures
        match data_field(data@, off as int) {
            None => res is None,
            Some(f) => res matches Some(a) && a@ == f,
        },
{
    let len = data.len();
    if len < 16 || off > (len - 16) as u64 {
        return None;
    }
    let off = off as usize;
    let obj = match parse_object_header(slice_subrange(data, off, len)) {
        Ok(h) => h,
        Err(_) => {
            proof {
                lemma_header_at_offset(data@, off as int);
            }
            return None;
        },
    };
    proof {
        lemma_header_at_offset(data@, off as int);
    }
    if obj.object_type != JournalObjectType::Data {
        return None;
    }
    let dsize = obj.size;
    if dsize <= DATA_PAYLOAD_OFFSET as u64 || len - off <= DATA_PAYLOAD_OFFSET {
        return None;
    }
    let payload_start = off + DATA_PAYLOAD_OFFSET;
    let payload_end = if dsize <= (len - off) as u64 {
        off + dsize as usize
    } else {
        len
    };
    let ghost payload = data@.subrange(payload_start as int, payload_end as int);
    let mut eq = payload_start;
    while eq < payload_end && data[eq] != 61
        invariant
            payload_start <= eq <= payload_end <= data@.len(),
            payload == data@.subrange(payload_start as int, payload_end as int),
            forall|q: int| payload_start <= q < eq ==> data@[q] != 61,
        decreases payload_end - eq,
    {
        eq = eq + 1;
    }
    proof {
        assert forall|q: int| 0 <= q < eq - payload_start implies payload[q] != 61 by {
            assert(payload[q] == data@[payload_start + q]);
        }
        if eq < payload_end {
            assert(payload[eq - payload_start] == data@[eq as int]);
        }
        lemma_first_index_found(payload, 61, 0, eq - payload_start);
    }
    if eq == payload_end {
        return None;
    }
    let key = decode_utf8_lossy(slice_subrange(data, payload_start, eq));
    let value = slice_to_vec(slice_subrange(data, eq + 1, payload_end));
    proof {
        assert(payload.take(eq - payload_start) =~= data@.subrange(payload_start as int, eq as int));
        assert(payload.skip(eq - payload_start + 1) =~= data@.subrange(eq + 1, payload_end as int));
    }
    Some(ArenaField { key, value })
}

proof fn lemma_map_push(s: Seq<ArenaField>, x: ArenaField)
    ensures
        s.push(x).map_values(|f: ArenaField| f@) == s.map_values(|f: ArenaField| f@).push(x@),
{
    assert(s.push(x).map_values(|f: ArenaField| f@) =~= s.map_values(|f: ArenaField| f@).push(
        x@,
    ));
}

/// Reads the fields of the items from `items_start` to `obj_end`, as [`item_fields`].
fn read_item_fields(data: &[u8], items_start: usize, obj_end: usize) -> (fields: Vec<ArenaField>)
    requires
        items_start <= data@.len(),
        obj_end <= data@.len(),
    ensures
        fields@.map_values(|f: ArenaField| f@) == item_fields(
            data@,
            items_start as int,
            obj_end as int,
        ),
{
    let mut fields: Vec<ArenaField> = Vec::new();
    if items_start > obj_end {
        return fields;
    }
    let mut item_pos = items_start;
    while obj_end - item_pos >= 16
        invariant
            items_start <= item_pos <= obj_end <= data@.len(),
            fields@.map_values(|f: ArenaField| f@) + item_fields(
                data@,
                item_pos as int,
                obj_end as int,
            ) == item_fields(data@, items_start as int, obj_end as int),
        decreases obj_end - item_pos,
    {
        let data_offset = read_u64_le(data, item_pos);
        let ghost before = fields@;
        let ghost rest = item_fields(data@, item_pos + 16, obj_end as int);
        match read_data_field(data, data_offset) {
            Some(f) => {
                fields.push(f);
                proof {
                    lemma_map_push(before, f);
                    assert(before.map_values(|f: ArenaField| f@).push(f@) + rest =~= before.map_values(
                        |f: ArenaField| f@,
                    ) + (seq![f@] + rest));
                }
            },
            None => {},
        }
        item_pos = item_pos + 16;
    }
    proof {
        assert(fields@.map_values(|f: ArenaField| f@) + Seq::<FieldView>::empty() =~= fields@.map_values(
            |f: ArenaField| f@,
        ));
    }
    fields
}

/// Very lightweight entry scanner: walk objects sequentially looking for Entry objects.
///
/// This is a best-effort walk — it does not follow hash table chains, but steps
/// through the arena from after the header (see [`walk_from`]).
pub fn scan_entries(data: &[u8]) -> (entries: Vec<ArenaEntry>)
    ensures
        entries_are(entries@, spec_scan_entries(data@)),
{
    let mut entries: Vec<ArenaEntry> = Vec::new();
    let len = data.len();
    if len < MIN_HEADER {
        return entries;
    }
    let raw_header_size = read_u64_le(data, 88);
    let start = if raw_header_size > MIN_ARENA_START {
        raw_header_size
    } else {
        MIN_ARENA_START
    };
    if start >= len as u64 {
        return entries;
    }
    let mut pos = start as usize;
    proof {
        assert(spec_scan_entries(data@).take(0) =~= Seq::<EntryView>::empty());
        assert(spec_scan_entries(data@) =~= Seq::<EntryView>::empty() + walk_from(data@, pos as int));
    }
    while len - pos >= 16
        invariant
            len == data@.len(),
            len >= MIN_HEADER,
            pos <= len,
            entries_are(entries@, spec_scan_entries(data@).take(entries@.len() as int)),
            spec_scan_entries(data@) == spec_scan_entries(data@).take(entries@.len() as int)
                + walk_from(data@, pos as int),
        decreases len - pos,
    {
        let ghost whole = spec_scan_entries(data@);
        let ghost n = entries@.len() as int;
        let ghost before = entries@;
        proof {
            lemma_header_at_offset(data@, pos as int);
        }
        let next: usize = match parse_object_header(slice_subrange(data, pos, len)) {
            Err(_) => pos + 8,
            Ok(obj) => {
                let size = obj.size;
                if size < 16 {
                    pos + 8
                } else {
                    if obj.object_type == JournalObjectType::Entry && len - pos >= ENTRY_ITEMS_OFFSET {
                        let seqnum = read_u64_le(data, pos + 16);
                        let realtime = read_u64_le(data, pos + 24);
                        let monotonic = read_u64_le(data, pos + 32);
                        let obj_end = if size <= (len - pos) as u64 {
                            pos + size as usize
                        } else {
                            len
                        };
                        let fields = read_item_fields(data, pos + ENTRY_ITEMS_OFFSET, obj_end);
                        let e = ArenaEntry {
                            seqnum,
                            realtime_us: realtime,
                            monotonic_us: monotonic,
                            fields,
                        };
                        let ghost ev = entry_at(data@, pos as int, size as int);
                        entries.push(e);
                        proof {
                            assert(e@ == ev);
                            let rest = walk_from(data@, pos + size);
                            assert(walk_from(data@, pos as int) == seq![ev] + rest);
                            assert(whole =~= whole.take(n) + (seq![ev] + rest));
                            assert(whole[n] == ev);
                            assert(whole.take(n + 1) =~= whole.take(n).push(ev));
                            assert(whole =~= whole.take(n + 1) + rest);
                            assert forall|k: int| 0 <= k < entries@.len() implies #[trigger] entries@[k]@
                                == whole.take(entries@.len() as int)[k] by {
                                if k < n {
                                    assert(entries@[k] == before[k]);
                                    assert(before[k]@ == whole.take(n)[k]);
                                }
                            }
                        }
                    }
                    if size > (len - pos) as u64 {
                        proof {
                            assert(walk_from(data@, pos + size) =~= Seq::<EntryView>::empty());
                            assert(walk_from(data@, len as int) =~= Seq::<EntryView>::empty());
                        }
                        len
                    } else {
                        pos + size as usize
                    }
                }
            },
        };
        pos = next;
    }
    proof {
        let whole = spec_scan_entries(data@);
        assert(walk_from(data@, pos as int) =~= Seq::<EntryView>::empty());
        assert(whole =~= whole.take(entries@.len() as int));
    }
    entries
}

// ----- search: entries with a field equal to KEY=VALUE -----

/// A `KEY=VALUE` filter split at its first `=`, as bytes; nothing without an `=`.
pub open spec fn spec_split_filter(b: Seq<u8>) -> Option<(Seq<u8>, Seq<u8>)> {
    let i = first_index(b, 61, 0);
    if i < b.len() {
        Some((b.take(i), b.skip(i + 1)))
    } else {
        None
    }
}

/// True when a field's name (as UTF-8) is `key` and its value is `value`.
pub open spec fn field_matches(f: FieldView, key: Seq<u8>, value: Seq<u8>) -> bool {
    encode_utf8(f.key) == key && f.value == value
}

/// True when some field of the entry matches.
pub open spec fn entry_matches(e: EntryView, key: Seq<u8>, value: Seq<u8>) -> bool {
    exists|i: int| 0 <= i < e.fields.len() && #[trigger] field_matches(e.fields[i], key, value)
}

/// The indices of the matching entries, in increasing order.
pub open spec fn matching_indices(es: Seq<EntryView>, key: Seq<u8>, value: Seq<u8>) -> Seq<int>
    decreases es.len(),
{
    if es.len() == 0 {
        Seq::empty()
    } else {
        let prev = matching_indices(es.drop_last(), key, value);
        if entry_matches(es.last(), key, value) {
            prev.push(es.len() - 1)
        } else {
            prev
        }
    }
}

/// The views of a list of entries.
pub open spec fn entry_views(es: Seq<ArenaEntry>) -> Seq<EntryView> {
    es.map_values(|e: ArenaEntry| e@)
}

/// Split a `FIELD=VALUE` filter at its first `=` into the field name's bytes and the
/// value's bytes. `None` when the filter has no `=`.
pub fn split_filter(filter: &str) -> (res: Option<(Vec<u8>, Vec<u8>)>)
    ensures
        match spec_split_filter(encode_utf8(filter@)) {
            None => res is None,
            Some((k, v)) => res matches Some((a, b)) && a@ == k && b@ == v,
        },
{
    let b = filter.as_bytes();
    let mut i: usize = 0;
    while i < b.len() && b[i] != 61
        invariant
            0 <= i <= b@.len(),
            forall|q: int| 0 <= q < i ==> b@[q] != 61,
        decreases b@.len() - i,
    {
        i = i + 1;
    }
    proof {
        lemma_first_index_found(b@, 61, 0, i as int);
    }
    if i == b.len() {
        return None;
    }
    let key = slice_to_vec(slice_subrange(b, 0, i));
    let value = slice_to_vec(slice_subrange(b, i + 1, b.len()));
    proof {
        assert(b@.subrange(0, i as int) =~= b@.take(i as int));
        assert(b@.subrange(i + 1, b@.len() as int) =~= b@.skip(i + 1));
    }
    Some((key, value))
}

/// True when some field of `e` has the name `key` (as UTF-8 bytes) and the value `value`.
pub fn arena_entry_matches(e: &ArenaEntry, key: &[u8], value: &[u8]) -> (res: bool)
    ensures
        res == entry_matches(e@, key@, value@),
{
    let mut i: usize = 0;
    while i < e.fields.len()
        invariant
            0 <= i <= e.fields@.len(),
            e@.fields.len() == e.fields@.len(),
            forall|q: int| 0 <= q < i ==> !#[trigger] field_matches(e@.fields[q], key@, value@),
        decreases e.fields@.len() - i,
    {
        let f = &e.fields[i];
        let k = f.key.as_str().as_bytes();
        let hit = crate::text::bytes_eq(k, key) && crate::text::bytes_eq(f.value.as_slice(), value);
        proof {
            assert(e@.fields[i as int] == f@);
        }
        if hit {
            proof {
                assert(field_matches(e@.fields[i as int], key@, value@));
            }
            return true;
        }
        i = i + 1;
    }
    false
}

/// The indices of the entries that have a field named `key` with value `value`, in
/// increasing order.
pub fn search_entries(entries: &[ArenaEntry], key: &[u8], value: &[u8]) -> (res: Vec<usize>)
    ensures
        res@.map_values(|i: usize| i as int) == matching_indices(
            entry_views(entries@),
            key@,
            value@,
        ),
        forall|j: int|
            0 <= j < entries@.len() ==> (res@.contains(j as usize) <==> has_field_pair(
                #[trigger] entries@[j]@,
                key@,
                value@,
            )),
        forall|a: int, b: int| 0 <= a < b < res@.len() ==> #[trigger] res@[a] < #[trigger] res@[b],
        forall|a: int| 0 <= a < res@.len() ==> #[trigger] res@[a] < entries@.len(),
{
    let mut res: Vec<usize> = Vec::new();
    let mut i: usize = 0;
    proof {
        assert(entry_views(entries@).take(0) =~= Seq::<EntryView>::empty());
        assert(res@.map_values(|i: usize| i as int) =~= Seq::<int>::empty());
    }
    while i < entries.len()
        invariant
            0 <= i <= entries@.len(),
            res@.map_values(|i: usize| i as int) == matching_indices(
                entry_views(entries@).take(i as int),
                key@,
                value@,
            ),
        decreases entries@.len() - i,
    {
        let ghost es = entry_views(entries@);
        let hit = arena_entry_matches(&entries[i], key, value);
        let ghost before = res@;
        proof {
            assert(es.take(i + 1).drop_last() =~= es.take(i as int));
            assert(es.take(i + 1).last() == entries@[i as int]@);
        }
        if hit {
            res.push(i);
            proof {
                assert(res@.map_values(|i: usize| i as int) =~= before.map_values(|i: usize| i as int).push(
                    i as int,
                ));
            }
        }
        i = i + 1;
    }
    proof {
        let es = entry_views(entries@);
        assert(es.take(entries@.len() as int) =~= es);
        let m = matching_indices(es, key@, value@);
        let r = res@.map_values(|i: usize| i as int);
        assert(r == m);
        law_search_indices_increasing(es, key@, value@);
        assert forall|a: int| 0 <= a < res@.len() implies #[trigger] res@[a] < entries@.len() by {
            assert(r[a] == res@[a] as int);
        }
        assert forall|a: int, b: int| 0 <= a < b < res@.len() implies #[trigger] res@[a] < #[trigger] res@[b] by {
            assert(r[a] == res@[a] as int);
            assert(r[b] == res@[b] as int);
        }
        assert forall|j: int| 0 <= j < entries@.len() implies (res@.contains(j as usize)
            <==> has_field_pair(#[trigger] entries@[j]@, key@, value@)) by {
            law_search_matches_same_field(es, key@, value@, j);
            assert(es[j] == entries@[j]@);
            if res@.contains(j as usize) {
                let a = choose|a: int| 0 <= a < res@.len() && res@[a] == j as usize;
                assert(r[a] == j);
            }
            if m.contains(j) {
                let a = choose|a: int| 0 <= a < m.len() && m[a] == j;
                assert(r[a] == res@[a] as int);
                assert(res@[a] == j as usize);
            }
        }
    }
    res
}

// ----- field names: every name, once, in byte order -----

/// Byte-wise lexicographic order, the order of `String` comparison.
pub open spec fn bytes_lt(a: Seq<u8>, b: Seq<u8>) -> bool
    decreases a.len(),
{
    if a.len() == 0 {
        b.len() > 0
    } else if b.len() == 0 {
        false
    } else if a[0] != b[0] {
        a[0] < b[0]
    } else {
        bytes_lt(a.drop_first(), b.drop_first())
    }
}

/// The byte order is irreflexive.
pub proof fn lemma_bytes_lt_irreflexive(a: Seq<u8>)
    ensures
        !bytes_lt(a, a),
    decreases a.len(),
{
    if a.len() > 0 {
        lemma_bytes_lt_irreflexive(a.drop_first());
    }
}

/// The byte order is transitive.
pub proof fn lemma_bytes_lt_transitive(a: Seq<u8>, b: Seq<u8>, c: Seq<u8>)
    requires
        bytes_lt(a, b),
        bytes_lt(b, c),
    ensures
        bytes_lt(a, c),
    decreases a.len(),
{
    if a.len() > 0 && b.len() > 0 && c.len() > 0 && a[0] == b[0] && b[0] == c[0] {
        lemma_bytes_lt_transitive(a.drop_first(), b.drop_first(), c.drop_first());
    }
}

/// The byte order is total.
pub proof fn lemma_bytes_lt_total(a: Seq<u8>, b: Seq<u8>)
    ensures
        a == b || bytes_lt(a, b) || bytes_lt(b, a),
    decreases a.len(),
{
    if a.len() > 0 && b.len() > 0 && a[0] == b[0] {
        lemma_bytes_lt_total(a.drop_first(), b.drop_first());
        if a.drop_first() == b.drop_first() {
            assert(a =~= seq![a[0]] + a.drop_first());
            assert(b =~= seq![b[0]] + b.drop_first());
        }
    } else if a.len() == 0 && b.len() == 0 {
        assert(a =~= b);
    }
}

/// True when `x` comes before `y` in byte order.
fn bytes_less(x: &[u8], y: &[u8]) -> (res: bool)
    ensures
        res == bytes_lt(x@, y@),
{
    let mut i: usize = 0;
    proof {
        assert(x@.skip(0) =~= x@);
        assert(y@.skip(0) =~= y@);
    }
    while i < x.len() && i < y.len() && x[i] == y[i]
        invariant
            0 <= i <= x@.len(),
            i <= y@.len(),
            bytes_lt(x@, y@) == bytes_lt(x@.skip(i as int), y@.skip(i as int)),
        decreases x@.len() - i,
    {
        proof {
            assert(x@.skip(i as int).drop_first() =~= x@.skip(i + 1));
            assert(y@.skip(i as int).drop_first() =~= y@.skip(i + 1));
        }
        i = i + 1;
    }
    if i == x.len() {
        i < y.len()
    } else if i == y.len() {
        false
    } else {
        x[i] < y[i]
    }
}

/// The UTF-8 bytes of a name.
pub open spec fn name_bytes(s: Seq<char>) -> Seq<u8> {
    encode_utf8(s)
}

/// True when `names` is strictly increasing in byte order.
pub open spec fn names_sorted(names: Seq<String>) -> bool {
    forall|i: int, j: int|
        0 <= i < j < names.len() ==> bytes_lt(name_bytes(#[trigger] names[i]@), name_bytes(
            #[trigger] names[j]@,
        ))
}

/// True when `names` holds the name `s`.
pub open spec fn names_have(names: Seq<String>, s: Seq<char>) -> bool {
    exists|i: int| 0 <= i < names.len() && #[trigger] names[i]@ == s
}

/// True when field `y` of entry `x` comes before field `b` of entry `a`.
pub open spec fn before_position(es: Seq<EntryView>, x: int, y: int, a: int, b: int) -> bool {
    &&& 0 <= x < es.len()
    &&& 0 <= y < es[x].fields.len()
    &&& (x < a || (x == a && y < b))
}

/// True when a field before position `(a, b)` is named `s`.
pub open spec fn name_seen(es: Seq<EntryView>, a: int, b: int, s: Seq<char>) -> bool {
    exists|x: int, y: int| before_position(es, x, y, a, b) && #[trigger] es[x].fields[y].key == s
}

/// True when some field of some entry is named `s`.
pub open spec fn has_field_name(es: Seq<EntryView>, s: Seq<char>) -> bool {
    exists|x: int, y: int|
        0 <= x < es.len() && 0 <= y < es[x].fields.len() && #[trigger] es[x].fields[y].key == s
}

/// Puts `name` into the sorted list `names` unless it is there already.
fn insert_name(names: &mut Vec<String>, name: &String)
    requires
        names_sorted(old(names)@),
    ensures
        names_sorted(final(names)@),
        forall|s: Seq<char>| names_have(final(names)@, s) <==> (names_have(old(names)@, s) || s == name@),
{
    let nb = name.as_str().as_bytes();
    let mut p: usize = 0;
    while p < names.len() && bytes_less(names[p].as_str().as_bytes(), nb)
        invariant
            0 <= p <= names@.len(),
            names_sorted(names@),
            nb@ == name_bytes(name@),
            forall|q: int| 0 <= q < p ==> bytes_lt(name_bytes(#[trigger] names@[q]@), nb@),
        decreases names@.len() - p,
    {
        p = p + 1;
    }
    if p < names.len() && crate::text::bytes_eq(names[p].as_str().as_bytes(), nb) {
        proof {
            vstd::utf8::encode_utf8_decode_utf8(names@[p as int]@);
            vstd::utf8::encode_utf8_decode_utf8(name@);
            assert(names@[p as int]@ == name@);
            assert(names_have(names@, name@));
        }
        return;
    }
    proof {
        if p < names@.len() {
            lemma_bytes_lt_total(name_bytes(names@[p as int]@), nb@);
            vstd::utf8::encode_utf8_decode_utf8(names@[p as int]@);
            vstd::utf8::encode_utf8_decode_utf8(name@);
        }
    }
    let ghost old_names = names@;
    assert(old_names == old(names)@);
    let copy = name.clone();
    assert(copy@ == name@);
    names.insert(p, copy);
    proof {
        assert forall|i: int, j: int| 0 <= i < j < names@.len() implies bytes_lt(
            name_bytes(#[trigger] names@[i]@),
            name_bytes(#[trigger] names@[j]@),
        ) by {
            if j < p {
                assert(names@[i] == old_names[i] && names@[j] == old_names[j]);
            } else if j == p {
                assert(names@[i] == old_names[i]);
            } else if i == p {
                assert(names@[j] == old_names[j - 1]);
                if j - 1 > p {
                    lemma_bytes_lt_transitive(nb@, name_bytes(old_names[p as int]@), name_bytes(old_names[j - 1]@));
                }
            } else if i < p {
                assert(names@[i] == old_names[i] && names@[j] == old_names[j - 1]);
            } else {
                assert(names@[i] == old_names[i - 1] && names@[j] == old_names[j - 1]);
            }
        }
        assert forall|s: Seq<char>| names_have(names@, s) <==> (names_have(old_names, s) || s == name@) by {
            if names_have(names@, s) {
                let i = choose|i: int| 0 <= i < names@.len() && #[trigger] names@[i]@ == s;
                if i < p {
                    assert(old_names[i]@ == s);
                } else if i > p {
                    assert(old_names[i - 1]@ == s);
                }
            }
            if names_have(old_names, s) {
                let i = choose|i: int| 0 <= i < old_names.len() && #[trigger] old_names[i]@ == s;
                if i < p {
                    assert(names@[i]@ == s);
                } else {
                    assert(names@[i + 1]@ == s);
                }
            }
            if s == name@ {
                assert(names@[p as int]@ == s);
            }
        }
        assert(forall|s: Seq<char>| names_have(names@, s) <==> (names_have(old(names)@, s) || s == name@));
    }
}

/// Every field name that occurs in the entries, once each, in byte order (the order
/// of `String` comparison).
pub fn field_names(entries: &[ArenaEntry]) -> (names: Vec<String>)
    ensures
        names_sorted(names@),
        forall|s: Seq<char>| names_have(names@, s) <==> has_field_name(entry_views(entries@), s),
{
    let ghost es = entry_views(entries@);
    let mut names: Vec<String> = Vec::new();
    let mut a: usize = 0;
    while a < entries.len()
        invariant
            0 <= a <= entries@.len(),
            es == entry_views(entries@),
            names_sorted(names@),
            forall|s: Seq<char>| names_have(names@, s) <==> name_seen(es, a as int, 0, s),
        decreases entries@.len() - a,
    {
        let fields = &entries[a].fields;
        let mut b: usize = 0;
        proof {
            assert(es[a as int] == entries@[a as int]@);
        }
        while b < fields.len()
            invariant
                0 <= a < entries@.len(),
                0 <= b <= fields@.len(),
                *fields == entries@[a as int].fields,
                es == entry_views(entries@),
                es[a as int].fields == fields@.map_values(|f: ArenaField| f@),
                names_sorted(names@),
                forall|s: Seq<char>| names_have(names@, s) <==> name_seen(es, a as int, b as int, s),
            decreases fields@.len() - b,
        {
            insert_name(&mut names, &fields[b].key);
            proof {
                assert(es[a as int].fields[b as int].key == fields@[b as int].key@);
                assert forall|s: Seq<char>| names_have(names@, s) <==> name_seen(es, a as int, b + 1, s) by {
                    if name_seen(es, a as int, b + 1, s) {
                        let (x, y) = choose|x: int, y: int| before_position(es, x, y, a as int, b + 1)
                            && #[trigger] es[x].fields[y].key == s;
                        if !(x == a && y == b) {
                            assert(before_position(es, x, y, a as int, b as int));
                        }
                    }
                    if name_seen(es, a as int, b as int, s) {
                        let (x, y) = choose|x: int, y: int| before_position(es, x, y, a as int, b as int)
                            && #[trigger] es[x].fields[y].key == s;
                        assert(before_position(es, x, y, a as int, b + 1));
                    }
                    if s == fields@[b as int].key@ {
                        assert(before_position(es, a as int, b as int, a as int, b + 1));
                    }
                }
            }
            b = b + 1;
        }
        proof {
            assert forall|s: Seq<char>| name_seen(es, a as int, b as int, s) <==> name_seen(es, a + 1, 0, s) by {
                if name_seen(es, a as int, b as int, s) {
                    let (x, y) = choose|x: int, y: int| before_position(es, x, y, a as int, b as int)
                        && #[trigger] es[x].fields[y].key == s;
                    assert(before_position(es, x, y, a + 1, 0));
                }
                if name_seen(es, a + 1, 0, s) {
                    let (x, y) = choose|x: int, y: int| before_position(es, x, y, a + 1, 0)
                        && #[trigger] es[x].fields[y].key == s;
                    assert(before_position(es, x, y, a as int, b as int));
                }
            }
        }
        a = a + 1;
    }
    proof {
        assert forall|s: Seq<char>| name_seen(es, a as int, 0, s) <==> has_field_name(es, s) by {
            if has_field_name(es, s) {
                let (x, y) = choose|x: int, y: int|
                    0 <= x < es.len() && 0 <= y < es[x].fields.len() && #[trigger] es[x].fields[y].key == s;
                assert(before_position(es, x, y, a as int, 0));
            }
        }
    }
    names
}

// ----- laws -----

/// A Data object whose payload is `K=V`, with no `=` in `K`, yields the field named
/// by `K` whose value is all of `V`, every byte after the first `=` to the end of the
/// payload, whatever `=` bytes `V` holds.
pub proof fn law_data_field_splits_at_first_equals(
    data: Seq<u8>,
    off: int,
    k: Seq<u8>,
    v: Seq<u8>,
)
    requires
        0 <= off,
        off + 16 <= data.len(),
        object_header_ok(data, off),
        object_header_at(data, off).object_type == JournalObjectType::Data,
        off + 64 < min_int(off + object_header_at(data, off).size as int, data.len() as int),
        data.subrange(off + 64, min_int(off + object_header_at(data, off).size as int, data.len() as int))
            == k + seq![61u8] + v,
        forall|q: int| 0 <= q < k.len() ==> k[q] != 61,
    ensures
        data_field(data, off) == Some(FieldView { key: name_text(k), value: v }),
{
    let payload = k + seq![61u8] + v;
    assert forall|q: int| 0 <= q < k.len() implies payload[q] != 61 by {
        assert(payload[q] == k[q]);
    }
    assert(payload[k.len() as int] == 61);
    lemma_first_index_found(payload, 61, 0, k.len() as int);
    assert(payload.take(k.len() as int) =~= k);
    assert(payload.skip(k.len() as int + 1) =~= v);
}

/// True when one and the same field of `e` is named `key` (as UTF-8) and holds `value`.
pub open spec fn has_field_pair(e: EntryView, key: Seq<u8>, value: Seq<u8>) -> bool {
    exists|i: int|
        0 <= i < e.fields.len() && encode_utf8(#[trigger] e.fields[i].key) == key
            && e.fields[i].value == value
}

proof fn lemma_matching_indices_bounded(es: Seq<EntryView>, key: Seq<u8>, value: Seq<u8>)
    ensures
        forall|x: int| #[trigger] matching_indices(es, key, value).contains(x) ==> 0 <= x < es.len(),
    decreases es.len(),
{
    if es.len() > 0 {
        lemma_matching_indices_bounded(es.drop_last(), key, value);
        let prev = matching_indices(es.drop_last(), key, value);
        let res = matching_indices(es, key, value);
        assert forall|x: int| #[trigger] res.contains(x) implies 0 <= x < es.len() by {
            let a = choose|a: int| 0 <= a < res.len() && res[a] == x;
            if a < prev.len() {
                assert(prev[a] == x);
                assert(prev.contains(x));
            }
        }
    }
}

/// Search reports entry `j` exactly when one of its fields has the name and the value
/// asked for; an entry with no field of that name is never reported.
pub proof fn law_search_matches_same_field(es: Seq<EntryView>, key: Seq<u8>, value: Seq<u8>, j: int)
    requires
        0 <= j < es.len(),
    ensures
        matching_indices(es, key, value).contains(j) <==> has_field_pair(es[j], key, value),
    decreases es.len(),
{
    let n = es.len() - 1;
    let prev = matching_indices(es.drop_last(), key, value);
    lemma_matching_indices_bounded(es.drop_last(), key, value);
    let res = matching_indices(es, key, value);
    if entry_matches(es.last(), key, value) {
        assert(res == prev.push(n));
    } else {
        assert(res == prev);
    }
    if j < n {
        law_search_matches_same_field(es.drop_last(), key, value, j);
        assert(es.drop_last()[j] == es[j]);
        if res.contains(j) {
            let x = choose|x: int| 0 <= x < res.len() && res[x] == j;
            if x < prev.len() {
                assert(prev[x] == j);
            }
        }
        if prev.contains(j) {
            let x = choose|x: int| 0 <= x < prev.len() && prev[x] == j;
            assert(res[x] == j);
        }
    } else {
        assert(!prev.contains(n));
        if entry_matches(es.last(), key, value) {
            assert(res[prev.len() as int] == n);
            let i = choose|i: int|
                0 <= i < es.last().fields.len() && #[trigger] field_matches(es.last().fields[i], key, value);
            assert(encode_utf8(es[j].fields[i].key) == key);
        } else {
            if has_field_pair(es[j], key, value) {
                let i = choose|i: int|
                    0 <= i < es[j].fields.len() && encode_utf8(#[trigger] es[j].fields[i].key) == key
                        && es[j].fields[i].value == value;
                assert(field_matches(es.last().fields[i], key, value));
            }
        }
    }
}

/// Every index that search reports names an entry, and they come in increasing order.
pub proof fn law_search_indices_increasing(es: Seq<EntryView>, key: Seq<u8>, value: Seq<u8>)
    ensures
        forall|a: int, b: int|
            0 <= a < b < matching_indices(es, key, value).len() ==> #[trigger] matching_indices(
                es,
                key,
                value,
            )[a] < #[trigger] matching_indices(es, key, value)[b],
        forall|a: int|
            0 <= a < matching_indices(es, key, value).len() ==> 0 <= #[trigger] matching_indices(
                es,
                key,
                value,
            )[a] < es.len(),
    decreases es.len(),
{
    if es.len() > 0 {
        law_search_indices_increasing(es.drop_last(), key, value);
        lemma_matching_indices_bounded(es.drop_last(), key, value);
        let prev = matching_indices(es.drop_last(), key, value);
        assert forall|a: int| 0 <= a < prev.len() implies prev[a] < es.len() - 1 by {
            assert(prev.contains(prev[a]));
        }
    }
}

} // verus!
