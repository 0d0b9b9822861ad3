//! Magic byte scanning and entry carving for systemd journal files: finding
//! journal structures in raw bytes such as unallocated space or corrupt files.
use vstd::prelude::*;
use vstd::slice::{slice_subrange, slice_to_vec};
use crate::binary::{
    has_magic, le_u64_at, magic_bytes, object_header_at, object_header_ok, read_u64_le,
    JournalObjectType, JOURNAL_MAGIC,
};

verus! {

/// The type byte of an Entry object.
pub const ENTRY_TYPE_BYTE: u8 = 3;

/// A carved object found by scanning raw bytes.
#[derive(Debug, Clone)]
pub struct CarvedEntry {
    pub offset: u64,
    pub object_type: u8,
    pub size: u64,
    pub raw: Vec<u8>,
}

/// True when the journal magic starts at byte `i` of `data`.
pub open spec fn magic_at(data: Seq<u8>, i: int) -> bool {
    0 <= i && i + 8 <= data.len() && data.subrange(i, i + 8) == magic_bytes()
}

/// The criteria of a plausible object header at the start of `buf`: sixteen bytes,
/// a type byte in `0..=7` and a non-zero size.
pub open spec fn plausible_header(buf: Seq<u8>) -> bool {
    buf.len() >= 16 && buf[0] <= 7 && le_u64_at(buf, 8) > 0
}

/// True when an Entry object header could start at byte `i`: an 8-byte aligned
/// offset (journal objects are 64-bit aligned), room for the header, type byte 3
/// and a non-zero size.
pub open spec fn entry_candidate(data: Seq<u8>, i: int) -> bool {
    &&& 0 <= i
    &&& i % 8 == 0
    &&& i + 16 <= data.len()
    &&& data[i] == ENTRY_TYPE_BYTE
    &&& le_u64_at(data, i + 8) > 0
}

/// The bytes of the object at `i`: `size` bytes, cut short at the end of `data`.
pub open spec fn carved_raw(data: Seq<u8>, i: int) -> Seq<u8> {
    let size = le_u64_at(data, i + 8) as int;
    if i + size <= data.len() {
        data.subrange(i, i + size)
    } else {
        data.subrange(i, data.len() as int)
    }
}

/// `e` is the entry carved at byte `i` of `data`.
pub open spec fn carved_from(e: CarvedEntry, data: Seq<u8>, i: int) -> bool {
    &&& e.offset == i
    &&& e.object_type == ENTRY_TYPE_BYTE
    &&& e.size == le_u64_at(data, i + 8)
    &&& e.raw@ == carved_raw(data, i)
}

/// Scan a byte slice for `LPKSHHRH` magic (journal file headers).
///
/// Returns the byte offsets where the magic was found, in increasing order.
pub fn scan_for_journal_magic(data: &[u8]) -> (offsets: Vec<u64>)
    ensures
        forall|k: int| 0 <= k < offsets@.len() ==> magic_at(data@, #[trigger] offsets@[k] as int),
        forall|k: int, j: int| 0 <= k < j < offsets@.len() ==> offsets@[k] < offsets@[j],
        forall|i: int| magic_at(data@, i) ==> offsets@.contains(i as u64),
{
    let mut offsets: Vec<u64> = Vec::new();
    if data.len() < 8 {
        return offsets;
    }
    let m = JOURNAL_MAGIC;
    let last = data.len() - 8;
    let mut i: usize = 0;
    while i <= last
        invariant
            last + 8 == data@.len(),
            data@.len() <= usize::MAX,
            m@ == magic_bytes(),
            forall|k: int| 0 <= k < offsets@.len() ==> magic_at(data@, #[trigger] offsets@[k] as int),
            forall|k: int| 0 <= k < offsets@.len() ==> #[trigger] offsets@[k] < i,
            forall|k: int, j: int| 0 <= k < j < offsets@.len() ==> offsets@[k] < offsets@[j],
            forall|p: int| 0 <= p < i && magic_at(data@, p) ==> offsets@.contains(p as u64),
        decreases last + 1 - i,
    {
        let mut j: usize = 0;
        let mut same = true;
        while j < 8
            invariant
                0 <= j <= 8,
                i + 8 <= data@.len(),
                data@.len() <= usize::MAX,
                m@ == magic_bytes(),
                same <==> forall|q: int| 0 <= q < j ==> data@[i + q] == magic_bytes()[q],
            decreases 8 - j,
        {
            if data[i + j] != m[j] {
                same = false;
            }
            j = j + 1;
        }
        proof {
            if same {
                assert(data@.subrange(i as int, i + 8) =~= magic_bytes());
            } else {
                let q = choose|q: int| 0 <= q < 8 && data@[i + q] != magic_bytes()[q];
                assert(data@.subrange(i as int, i + 8)[q] != magic_bytes()[q]);
            }
        }
        let ghost before = offsets@;
        if same {
            offsets.push(i as u64);
            proof {
                assert(offsets@[before.len() as int] == i as u64);
            }
        }
        proof {
            assert forall|p: int| 0 <= p < i + 1 && magic_at(data@, p) implies offsets@.contains(
                p as u64,
            ) by {
                if p < i {
                    let k = choose|k: int| 0 <= k < before.len() && before[k] == p as u64;
                    assert(offsets@[k] == p as u64);
                } else {
                    assert(offsets@[offsets@.len() - 1] == p as u64);
                }
            }
        }
        i = i + 1;
    }
    proof {
        assert forall|p: int| magic_at(data@, p) implies offsets@.contains(p as u64) by {
            assert(p <= last);
        }
    }
    offsets
}

/// Returns `true` if the bytes at the start of `buf` look like a valid object header.
///
/// Criteria:
/// - At least 16 bytes available
/// - Type byte in 0..=7
/// - Size > 0
pub fn is_plausible_object_header(buf: &[u8]) -> (res: bool)
    ensures
        res == plausible_header(buf@),
{
    if buf.len() < 16 {
        return false;
    }
    if buf[0] > 7 {
        return false;
    }
    read_u64_le(buf, 8) > 0
}

/// Scan for Entry object headers (type byte = 3) in a raw byte slice.
///
/// Every 8-byte aligned position whose object header is plausible with type Entry
/// (non-zero size) yields a carved entry, in increasing order of offset; its raw
/// bytes are the object's `size` bytes, cut short where `data` ends.
pub fn scan_for_entry_objects(data: &[u8]) -> (entries: Vec<CarvedEntry>)
    ensures
        forall|k: int|
            0 <= k < entries@.len() ==> #[trigger] entry_candidate(data@, entries@[k].offset as int)
                && carved_from(entries@[k], data@, entries@[k].offset as int),
        forall|k: int, j: int|
            0 <= k < j < entries@.len() ==> entries@[k].offset < entries@[j].offset,
        forall|i: int|
            entry_candidate(data@, i) ==> exists|k: int|
                0 <= k < entries@.len() && #[trigger] entries@[k].offset == i as u64,
        forall|i: int|
            #![trigger data@[i]]
            0 <= i && i % 8 == 0 && i + 16 <= data@.len() && data@[i] == 3 && le_u64_at(data@, i + 8)
                > 0 ==> exists|k: int|
                0 <= k < entries@.len() && #[trigger] entries@[k].offset == i as u64
                    && entries@[k].object_type == 3 && entries@[k].size == le_u64_at(data@, i + 8)
                    && entries@[k].raw@ == data@.subrange(
                    i,
                    if i + le_u64_at(data@, i + 8) <= data@.len() {
                        i + le_u64_at(data@, i + 8)
                    } else {
                        data@.len() as int
                    },
                ),
{
    let mut entries: Vec<CarvedEntry> = Vec::new();
    if data.len() < 16 {
        proof {
            lemma_entry_headers_carved(data@, entries@);
        }
        return entries;
    }
    let last = data.len() - 16;
    let mut i: usize = 0;
    while i <= last
        invariant
            last + 16 == data@.len(),
            i % 8 == 0,
            i <= last + 8,
            forall|k: int|
                0 <= k < entries@.len() ==> #[trigger] entry_candidate(
                    data@,
                    entries@[k].offset as int,
                ) && carved_from(entries@[k], data@, entries@[k].offset as int),
            forall|k: int| 0 <= k < entries@.len() ==> #[trigger] entries@[k].offset < i,
            forall|k: int, j: int|
                0 <= k < j < entries@.len() ==> entries@[k].offset < entries@[j].offset,
            forall|p: int|
                0 <= p < i && entry_candidate(data@, p) ==> exists|k: int|
                    0 <= k < entries@.len() && #[trigger] entries@[k].offset == p as u64,
        decreases last + 8 - i,
    {
        let ghost before = entries@;
        if data[i] == ENTRY_TYPE_BYTE {
            let size = read_u64_le(data, i + 8);
            if size > 0 {
                let room = (data.len() - i) as u64;
                let end = if size <= room {
                    i + size as usize
                } else {
                    data.len()
                };
                let raw = slice_to_vec(slice_subrange(data, i, end));
                let e = CarvedEntry { offset: i as u64, object_type: ENTRY_TYPE_BYTE, size, raw };
                entries.push(e);
                proof {
                    assert(raw@ == carved_raw(data@, i as int));
                    assert(carved_from(e, data@, i as int));
                    assert(entries@[before.len() as int] == e);
                    assert(entry_candidate(data@, i as int));
                    assert forall|k: int| 0 <= k < before.len() implies entries@[k] == before[k] by {}
                }
            }
        }
        proof {
            assert forall|p: int|
                0 <= p < i + 8 && entry_candidate(data@, p) implies exists|k: int|
                0 <= k < entries@.len() && #[trigger] entries@[k].offset == p as u64 by {
                if p < i {
                    let k = choose|k: int| 0 <= k < before.len() && before[k].offset == p as u64;
                    assert(entries@[k] == before[k]);
                } else {
                    assert(p == i);
                    assert(entries@[entries@.len() - 1].offset == p as u64);
                }
            }
        }
        i = i + 8;
    }
    proof {
        assert forall|p: int| entry_candidate(data@, p) implies exists|k: int|
            0 <= k < entries@.len() && #[trigger] entries@[k].offset == p as u64 by {
            assert(p < i);
        }
        lemma_entry_headers_carved(data@, entries@);
    }
    entries
}

proof fn lemma_entry_headers_carved(data: Seq<u8>, entries: Seq<CarvedEntry>)
    requires
        data.len() <= u64::MAX,
        forall|k: int|
            0 <= k < entries.len() ==> #[trigger] entry_candidate(data, entries[k].offset as int)
                && carved_from(entries[k], data, entries[k].offset as int),
        forall|i: int|
            entry_candidate(data, i) ==> exists|k: int|
                0 <= k < entries.len() && #[trigger] entries[k].offset == i as u64,
    ensures
        forall|i: int|
            #![trigger data[i]]
            0 <= i && i % 8 == 0 && i + 16 <= data.len() && data[i] == 3 && le_u64_at(data, i + 8)
                > 0 ==> exists|k: int|
                0 <= k < entries.len() && #[trigger] entries[k].offset == i as u64
                    && entries[k].object_type == 3 && entries[k].size == le_u64_at(data, i + 8)
                    && entries[k].raw@ == data.subrange(
                    i,
                    if i + le_u64_at(data, i + 8) <= data.len() {
                        i + le_u64_at(data, i + 8)
                    } else {
                        data.len() as int
                    },
                ),
{
    assert forall|i: int|
        #![trigger data[i]]
        0 <= i && i % 8 == 0 && i + 16 <= data.len() && data[i] == 3 && le_u64_at(data, i + 8)
            > 0 implies exists|k: int|
            0 <= k < entries.len() && #[trigger] entries[k].offset == i as u64
                && entries[k].object_type == 3 && entries[k].size == le_u64_at(data, i + 8)
                && entries[k].raw@ == data.subrange(
                i,
                if i + le_u64_at(data, i + 8) <= data.len() {
                    i + le_u64_at(data, i + 8)
                } else {
                    data.len() as int
                },
            ) by {
        law_entry_candidate_at(data, i);
        let k = choose|k: int| 0 <= k < entries.len() && #[trigger] entries[k].offset == i as u64;
        assert(entry_candidate(data, entries[k].offset as int));
        assert(entries[k].offset as int == i);
        assert(carved_from(entries[k], data, i));
    }
}

/// An Entry object header may start at any 8-byte aligned offset of `data`, the first
/// one included: the offset is a candidate exactly when the header fits, its type
/// byte is 3 and its size is not zero.
pub proof fn law_entry_candidate_at(data: Seq<u8>, i: int)
    ensures
        entry_candidate(data, i) <==> (0 <= i && i % 8 == 0 && i + 16 <= data.len() && data[i] == 3
            && le_u64_at(data, i + 8) > 0),
{
}

/// The offsets that the magic scan reports are exactly the offsets from which
/// `parse_journal_magic` accepts the rest of the buffer.
pub proof fn law_magic_scan_matches_magic_parse(data: Seq<u8>, i: int)
    requires
        0 <= i <= data.len(),
    ensures
        magic_at(data, i) <==> has_magic(data.skip(i)),
{
    if magic_at(data, i) {
        assert(data.skip(i).take(8) =~= data.subrange(i, i + 8));
    }
    if has_magic(data.skip(i)) {
        assert(data.skip(i).take(8) =~= data.subrange(i, i + 8));
    }
}

/// A carved entry's bytes begin with a plausible object header of type Entry with
/// the entry's size; where its flags are known, `parse_object_header` reads it as
/// an Entry header of that size.
pub proof fn law_carved_entry_is_entry_header(data: Seq<u8>, i: int)
    requires
        entry_candidate(data, i),
    ensures
        plausible_header(data.skip(i)),
        le_u64_at(data.skip(i), 8) == le_u64_at(data, i + 8),
        object_header_ok(data.skip(i), 0) ==> object_header_at(data.skip(i), 0).object_type
            == JournalObjectType::Entry && object_header_at(data.skip(i), 0).size == le_u64_at(
            data,
            i + 8,
        ),
{
    lemma_le_u64_skip(data, i, 8);
}

/// Reading a number after skipping `i` bytes reads the same bytes.
pub proof fn lemma_le_u64_skip(data: Seq<u8>, i: int, off: int)
    requires
        0 <= i,
        0 <= off,
        i + off + 8 <= data.len(),
    ensures
        le_u64_at(data.skip(i), off) == le_u64_at(data, i + off),
{
    reveal_with_fuel(crate::binary::le_value, 9);
    let s = data.skip(i);
    assert(s[off] == data[i + off]);
    assert(s[off + 1] == data[i + off + 1]);
    assert(s[off + 2] == data[i + off + 2]);
    assert(s[off + 3] == data[i + off + 3]);
    assert(s[off + 4] == data[i + off + 4]);
    assert(s[off + 5] == data[i + off + 5]);
    assert(s[off + 6] == data[i + off + 6]);
    assert(s[off + 7] == data[i + off + 7]);
}

/// A header that `parse_object_header` accepts with a non-zero size is plausible;
/// a plausible header's type byte is one that `object_type_from_byte` accepts.
pub proof fn law_parsed_header_is_plausible(buf: Seq<u8>)
    ensures
        object_header_ok(buf, 0) && object_header_at(buf, 0).size > 0 ==> plausible_header(buf),
        plausible_header(buf) ==> crate::binary::spec_object_type(buf[0]) is Some,
{
}

} // verus!
