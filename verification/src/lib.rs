//! Reading systemd journal files over plain byte slices: the binary format,
//! carving of journal structures from raw bytes, entry and cursor types, and
//! the integrity signals that a tampered journal shows.
pub mod arena;
pub mod binary;
pub mod carver;
pub mod cursor;
pub mod entry;
pub mod error;
pub mod integrity;
pub mod text;

pub use arena::{field_names, scan_entries, search_entries, split_filter, ArenaEntry, ArenaField};
pub use binary::{
    object_type_from_byte, parse_header, parse_journal_magic, parse_object_header, JournalHeader,
    JournalObjectType, JournalState, ObjectHeader, JOURNAL_MAGIC,
};
pub use carver::{
    is_plausible_object_header, scan_for_entry_objects, scan_for_journal_magic, CarvedEntry,
};
pub use cursor::JournalCursor;
pub use entry::{JournalEntry, JournalField, JournalFieldValue};
pub use error::JournalError;
pub use integrity::{
    detect_online_state, detect_sequence_gaps, detect_timestamp_regressions, detect_truncation,
    IntegrityIndicator, IntegrityKind,
};
