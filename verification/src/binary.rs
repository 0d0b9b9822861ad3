//! The on-disk journal format: file magic, file header and object headers,
//! read from byte slices with every length checked before use.
use vstd::prelude::*;
use crate::error::JournalError;

verus! {

/// The 8-byte file magic at offset 0 of the journal file header object (`LPKSHHRH`).
pub const JOURNAL_MAGIC: &'static [u8; 8] = &[0x4c, 0x50, 0x4b, 0x53, 0x48, 0x48, 0x52, 0x48];

/// The magic bytes `LPKSHHRH`.
pub open spec fn magic_bytes() -> Seq<u8> {
    seq![0x4cu8, 0x50, 0x4b, 0x53, 0x48, 0x48, 0x52, 0x48]
}

/// The smallest file header this library reads: everything up to and including
/// `tail_entry_monotonic` (offset 200, eight bytes).
pub const HEADER_MIN_SIZE: usize = 208;

/// The size of an object header: type, flags, six reserved bytes and a 64-bit size.
pub const OBJECT_HEADER_SIZE: usize = 16;

/// The compression flag bits an object may carry (XZ, LZ4, ZSTD).
pub const KNOWN_COMPRESSION_FLAGS: u8 = 7;

/// Journal file state.
#[derive(Debug, Clone, Copy, PartialEq, Eq, Structural)]
pub enum JournalState {
    Offline,
    Online,
    Archived,
}

/// Parsed journal file header.
#[derive(Debug, Clone, Copy)]
pub struct JournalHeader {
    pub compatible_flags: u32,
    pub incompatible_flags: u32,
    pub state: JournalState,
    pub machine_id: [u8; 16],
    pub boot_id: [u8; 16],
    pub seqnum_id: [u8; 16],
    pub n_objects: u64,
    pub n_entries: u64,
    pub tail_entry_seqnum: u64,
    pub head_entry_seqnum: u64,
    pub head_entry_realtime: u64,
    pub tail_entry_realtime: u64,
}

/// All known object types in a journal file.
#[derive(Debug, Clone, Copy, PartialEq, Eq, Structural)]
pub enum JournalObjectType {
    Unused,
    Data,
    Field,
    Entry,
    DataHashTable,
    FieldHashTable,
    EntryArray,
    Tag,
}

/// Parsed object header (8 bytes + size field = 16 bytes total as laid out in the spec).
#[derive(Debug, Clone, Copy)]
pub struct ObjectHeader {
    pub object_type: JournalObjectType,
    pub flags: u8,
    pub size: u64,
}

/// The little-endian number held by the `n` bytes of `s` from `off`.
pub open spec fn le_value(s: Seq<u8>, off: int, n: nat) -> nat
    decreases n,
{
    if n == 0 {
        0
    } else {
        s[off] as nat + 256 * le_value(s, off + 1, (n - 1) as nat)
    }
}

/// The little-endian 32-bit number at `off`.
pub open spec fn le_u32_at(s: Seq<u8>, off: int) -> u32 {
    le_value(s, off, 4) as u32
}

/// The little-endian 64-bit number at `off`.
pub open spec fn le_u64_at(s: Seq<u8>, off: int) -> u64 {
    le_value(s, off, 8) as u64
}

/// The object type a type byte names, if any.
pub open spec fn spec_object_type(b: u8) -> Option<JournalObjectType> {
    if b == 0 {
        Some(JournalObjectType::Unused)
    } else if b == 1 {
        Some(JournalObjectType::Data)
    } else if b == 2 {
        Some(JournalObjectType::Field)
    } else if b == 3 {
        Some(JournalObjectType::Entry)
    } else if b == 4 {
        Some(JournalObjectType::DataHashTable)
    } else if b == 5 {
        Some(JournalObjectType::FieldHashTable)
    } else if b == 6 {
        Some(JournalObjectType::EntryArray)
    } else if b == 7 {
        Some(JournalObjectType::Tag)
    } else {
        None
    }
}

/// The journal state a state byte names, if any.
pub open spec fn spec_state(b: u8) -> Option<JournalState> {
    if b == 0 {
        Some(JournalState::Offline)
    } else if b == 1 {
        Some(JournalState::Online)
    } else if b == 2 {
        Some(JournalState::Archived)
    } else {
        None
    }
}

/// True when `buf` begins with the journal magic.
pub open spec fn has_magic(buf: Seq<u8>) -> bool {
    buf.len() >= 8 && buf.take(8) == magic_bytes()
}

/// True when the bytes from `off` hold an object header this library can read:
/// sixteen bytes, a known type and only known compression flags.
pub open spec fn object_header_ok(buf: Seq<u8>, off: int) -> bool {
    &&& 0 <= off
    &&& off + 16 <= buf.len()
    &&& spec_object_type(buf[off]) is Some
    &&& buf[off + 1] & !KNOWN_COMPRESSION_FLAGS == 0
}

/// The object header read from the bytes at `off` (meaningful when
/// `object_header_ok(buf, off)`).
pub open spec fn object_header_at(buf: Seq<u8>, off: int) -> ObjectHeader {
    ObjectHeader {
        object_type: spec_object_type(buf[off]).unwrap(),
        flags: buf[off + 1],
        size: le_u64_at(buf, off + 8),
    }
}

/// The file header held by `buf` (meaningful when `buf` is at least
/// `HEADER_MIN_SIZE` bytes and its state byte is known).
pub open spec fn header_from_bytes(buf: Seq<u8>) -> JournalHeader {
    JournalHeader {
        compatible_flags: le_u32_at(buf, 8),
        incompatible_flags: le_u32_at(buf, 12),
        state: spec_state(buf[16]).unwrap(),
        machine_id: id_from_bytes(buf.subrange(40, 56)),
        boot_id: id_from_bytes(buf.subrange(56, 72)),
        seqnum_id: id_from_bytes(buf.subrange(72, 88)),
        n_objects: le_u64_at(buf, 144),
        n_entries: le_u64_at(buf, 152),
        tail_entry_seqnum: le_u64_at(buf, 160),
        head_entry_seqnum: le_u64_at(buf, 168),
        head_entry_realtime: le_u64_at(buf, 184),
        tail_entry_realtime: le_u64_at(buf, 192),
    }
}

/// The 16-byte identifier whose bytes are `s`.
pub open spec fn id_from_bytes(s: Seq<u8>) -> [u8; 16] {
    choose|a: [u8; 16]| a@ == s
}

/// Reads the little-endian 32-bit number at `off`.
pub fn read_u32_le(buf: &[u8], off: usize) -> (v: u32)
    requires
        off + 4 <= buf@.len(),
    ensures
        v == le_u32_at(buf@, off as int),
        v as nat == le_value(buf@, off as int, 4),
{
    let b0 = buf[off] as u32;
    let b1 = buf[off + 1] as u32;
    let b2 = buf[off + 2] as u32;
    let b3 = buf[off + 3] as u32;
    let v = b0 + 256 * (b1 + 256 * (b2 + 256 * b3));
    proof {
        reveal_with_fuel(le_value, 5);
    }
    v
}

/// Reads the little-endian 64-bit number at `off`.
pub fn read_u64_le(buf: &[u8], off: usize) -> (v: u64)
    requires
        off + 8 <= buf@.len(),
    ensures
        v == le_u64_at(buf@, off as int),
        v as nat == le_value(buf@, off as int, 8),
{
    let b0 = buf[off] as u64;
    let b1 = buf[off + 1] as u64;
    let b2 = buf[off + 2] as u64;
    let b3 = buf[off + 3] as u64;
    let b4 = buf[off + 4] as u64;
    let b5 = buf[off + 5] as u64;
    let b6 = buf[off + 6] as u64;
    let b7 = buf[off + 7] as u64;
    let v = b0 + 256 * (b1 + 256 * (b2 + 256 * (b3 + 256 * (b4 + 256 * (b5 + 256 * (b6 + 256
        * b7))))));
    proof {
        reveal_with_fuel(le_value, 9);
    }
    v
}

/// Copies the sixteen bytes from `off` into an identifier.
fn read_id(buf: &[u8], off: usize) -> (id: [u8; 16])
    requires
        off + 16 <= buf@.len(),
    ensures
        id@ == buf@.subrange(off as int, off + 16),
{
    let id = [
        buf[off],
        buf[off + 1],
        buf[off + 2],
        buf[off + 3],
        buf[off + 4],
        buf[off + 5],
        buf[off + 6],
        buf[off + 7],
        buf[off + 8],
        buf[off + 9],
        buf[off + 10],
        buf[off + 11],
        buf[off + 12],
        buf[off + 13],
        buf[off + 14],
        buf[off + 15],
    ];
    assert(id@ =~= buf@.subrange(off as int, off + 16));
    id
}

/// Verify that `buf` begins with the journal magic bytes.
///
/// A buffer shorter than the magic is `BufferTooShort` (needing 8 bytes); eight or
/// more bytes that differ from the magic are `InvalidMagic` with those bytes.
pub fn parse_journal_magic(buf: &[u8]) -> (res: Result<(), JournalError>)
    ensures
        res is Ok <==> has_magic(buf@),
        buf@.len() < 8 ==> (res matches Err(JournalError::BufferTooShort { needed, got }) && needed
            == 8 && got == buf@.len()),
        buf@.len() >= 8 && !has_magic(buf@) ==> (res matches Err(JournalError::InvalidMagic { found })
            && found@ == buf@.take(8)),
{
    if buf.len() < 8 {
        return Err(JournalError::BufferTooShort { needed: 8, got: buf.len() });
    }
    let found = [buf[0], buf[1], buf[2], buf[3], buf[4], buf[5], buf[6], buf[7]];
    assert(found@ =~= buf@.take(8));
    let m = JOURNAL_MAGIC;
    let mut i: usize = 0;
    while i < 8
        invariant
            0 <= i <= 8,
            buf@.len() >= 8,
            found@ == buf@.take(8),
            m@ == magic_bytes(),
            forall|j: int| 0 <= j < i ==> found@[j] == magic_bytes()[j],
        decreases 8 - i,
    {
        if found[i] != m[i] {
            assert(buf@.take(8)[i as int] != magic_bytes()[i as int]);
            return Err(JournalError::InvalidMagic { found });
        }
        i = i + 1;
    }
    assert(buf@.take(8) =~= magic_bytes());
    Ok(())
}

/// Map a raw object type byte to `JournalObjectType`.
pub fn object_type_from_byte(b: u8) -> (res: Result<JournalObjectType, JournalError>)
    ensures
        res matches Ok(t) ==> spec_object_type(b) == Some(t),
        res is Err ==> spec_object_type(b) is None,
        res is Err ==> (res matches Err(JournalError::InvalidObjectType { type_byte })
            && type_byte == b),
{
    match b {
        0 => Ok(JournalObjectType::Unused),
        1 => Ok(JournalObjectType::Data),
        2 => Ok(JournalObjectType::Field),
        3 => Ok(JournalObjectType::Entry),
        4 => Ok(JournalObjectType::DataHashTable),
        5 => Ok(JournalObjectType::FieldHashTable),
        6 => Ok(JournalObjectType::EntryArray),
        7 => Ok(JournalObjectType::Tag),
        _ => Err(JournalError::InvalidObjectType { type_byte: b }),
    }
}

/// Parse an object header from `buf` (must be at least 16 bytes).
///
/// Layout (little-endian):
/// - offset 0: type u8
/// - offset 1: flags u8
/// - offset 2..7: reserved [u8; 6]
/// - offset 8..15: size u64
///
/// Checks, in order: length (`BufferTooShort`), type (`InvalidObjectType`), and
/// that the flags carry no compression bit beyond XZ, LZ4 and ZSTD
/// (`UnknownCompression`).
pub fn parse_object_header(buf: &[u8]) -> (res: Result<ObjectHeader, JournalError>)
    ensures
        res is Ok <==> object_header_ok(buf@, 0),
        res matches Ok(h) ==> h == object_header_at(buf@, 0),
        buf@.len() < 16 ==> (res matches Err(JournalError::BufferTooShort { needed, got }) && needed
            == 16 && got == buf@.len()),
        buf@.len() >= 16 && spec_object_type(buf@[0]) is None ==> (res matches Err(
            JournalError::InvalidObjectType { type_byte },
        ) && type_byte == buf@[0]),
        buf@.len() >= 16 && spec_object_type(buf@[0]) is Some && buf@[1] & !KNOWN_COMPRESSION_FLAGS
            != 0 ==> (res matches Err(JournalError::UnknownCompression { flags }) && flags == buf@[1]),
{
    if buf.len() < OBJECT_HEADER_SIZE {
        return Err(JournalError::BufferTooShort { needed: OBJECT_HEADER_SIZE, got: buf.len() });
    }
    let object_type = match object_type_from_byte(buf[0]) {
        Ok(t) => t,
        Err(e) => {
            return Err(e);
        },
    };
    let flags = buf[1];
    if flags & !KNOWN_COMPRESSION_FLAGS != 0 {
        return Err(JournalError::UnknownCompression { flags });
    }
    let size = read_u64_le(buf, 8);
    Ok(ObjectHeader { object_type, flags, size })
}

/// Map a raw state byte to `JournalState`.
fn state_from_byte(b: u8) -> (res: Result<JournalState, JournalError>)
    ensures
        res matches Ok(s) ==> spec_state(b) == Some(s),
        res is Err ==> spec_state(b) is None,
        res is Err ==> (res matches Err(JournalError::UnknownState { state }) && state == b),
{
    match b {
        0 => Ok(JournalState::Offline),
        1 => Ok(JournalState::Online),
        2 => Ok(JournalState::Archived),
        _ => Err(JournalError::UnknownState { state: b }),
    }
}

/// Parse the journal file header from `buf`.
///
/// Checks, in order: the magic (as [`parse_journal_magic`]), that the buffer holds
/// at least `HEADER_MIN_SIZE` bytes (`BufferTooShort`), and that the state byte at
/// offset 16 is OFFLINE, ONLINE or ARCHIVED (`UnknownState`).
pub fn parse_header(buf: &[u8]) -> (res: Result<JournalHeader, JournalError>)
    ensures
        res is Ok <==> has_magic(buf@) && buf@.len() >= HEADER_MIN_SIZE && spec_state(buf@[16]) is Some,
        res matches Ok(h) ==> h == header_from_bytes(buf@),
        buf@.len() < 8 ==> (res matches Err(JournalError::BufferTooShort { needed, got }) && needed
            == 8 && got == buf@.len()),
        buf@.len() >= 8 && !has_magic(buf@) ==> (res matches Err(JournalError::InvalidMagic { found })
            && found@ == buf@.take(8)),
        has_magic(buf@) && buf@.len() < HEADER_MIN_SIZE ==> (res matches Err(
            JournalError::BufferTooShort { needed, got },
        ) && needed == HEADER_MIN_SIZE && got == buf@.len()),
        has_magic(buf@) && buf@.len() >= HEADER_MIN_SIZE && spec_state(buf@[16]) is None
            ==> (res matches Err(JournalError::UnknownState { state }) && state == buf@[16]),
{
    match parse_journal_magic(buf) {
        Ok(()) => {},
        Err(e) => {
            return Err(e);
        },
    }
    if buf.len() < HEADER_MIN_SIZE {
        return Err(JournalError::BufferTooShort { needed: HEADER_MIN_SIZE, got: buf.len() });
    }
    let state = match state_from_byte(buf[16]) {
        Ok(s) => s,
        Err(e) => {
            return Err(e);
        },
    };
    let machine_id = read_id(buf, 40);
    let boot_id = read_id(buf, 56);
    let seqnum_id = read_id(buf, 72);
    let h = JournalHeader {
        compatible_flags: read_u32_le(buf, 8),
        incompatible_flags: read_u32_le(buf, 12),
        state,
        machine_id,
        boot_id,
        seqnum_id,
        n_objects: read_u64_le(buf, 144),
        n_entries: read_u64_le(buf, 152),
        tail_entry_seqnum: read_u64_le(buf, 160),
        head_entry_seqnum: read_u64_le(buf, 168),
        head_entry_realtime: read_u64_le(buf, 184),
        tail_entry_realtime: read_u64_le(buf, 192),
    };
    proof {
        lemma_id_from_bytes(machine_id, buf@.subrange(40, 56));
        lemma_id_from_bytes(boot_id, buf@.subrange(56, 72));
        lemma_id_from_bytes(seqnum_id, buf@.subrange(72, 88));
    }
    Ok(h)
}

/// An identifier is the one whose bytes are its view.
pub proof fn lemma_id_from_bytes(a: [u8; 16], s: Seq<u8>)
    requires
        a@ == s,
    ensures
        id_from_bytes(s) == a,
{
    let b = id_from_bytes(s);
    assert(b@ == s);
    assert(b@ =~= a@);
}

} // verus!
