//! The library's error type and the text that describes each error.
use vstd::prelude::*;
use crate::text::{ascii_chars, decimal_bytes, hex2_bytes, push_hex2, push_radix, push_str};

verus! {

/// `std::io::Error`, carried by [`JournalError::Io`] for callers that read files.
/// Declared opaque: nothing is claimed of its contents.
#[verifier::external_type_specification]
#[verifier::external_body]
pub struct ExIoError(std::io::Error);

/// Errors produced by the journald-forensic library.
#[derive(Debug)]
pub enum JournalError {
    /// The first eight bytes are not `LPKSHHRH`.
    InvalidMagic { found: [u8; 8] },
    /// The buffer ends before the structure being read.
    BufferTooShort { needed: usize, got: usize },
    /// An object's type byte is not one of the eight known types.
    InvalidObjectType { type_byte: u8 },
    /// An object's flags hold a compression bit this library does not know.
    UnknownCompression { flags: u8 },
    /// The header's state byte is not OFFLINE, ONLINE or ARCHIVED.
    UnknownState { state: u8 },
    /// A cursor string does not have the cursor format.
    InvalidCursor { cursor: String },
    /// An I/O error met by a caller while reading a journal.
    Io(std::io::Error),
}

/// The bytes of a list written as `[xx, yy, ...]` with two hex digits per byte.
pub open spec fn hex_list_chars(b: Seq<u8>) -> Seq<char>
    decreases b.len(),
{
    if b.len() == 0 {
        Seq::empty()
    } else if b.len() == 1 {
        ascii_chars(hex2_bytes(b[0]))
    } else {
        hex_list_chars(b.drop_last()) + ", "@ + ascii_chars(hex2_bytes(b.last()))
    }
}

/// A number written in decimal.
pub open spec fn decimal_chars(n: nat) -> Seq<char> {
    ascii_chars(decimal_bytes(n))
}

impl JournalError {
    /// The text that describes this error (every variant but `Io`, whose text is
    /// `I/O error: ` followed by the `std::io::Error`'s own text).
    pub open spec fn spec_message(&self) -> Seq<char> {
        match self {
            JournalError::InvalidMagic { found } => "invalid magic: expected LPKSHHRH, found ["@
                + hex_list_chars(found@) + "]"@,
            JournalError::BufferTooShort { needed, got } => "buffer too short: needed "@
                + decimal_chars(*needed as nat) + " bytes, got "@ + decimal_chars(*got as nat),
            JournalError::InvalidObjectType { type_byte } => "invalid object type byte: "@
                + decimal_chars(*type_byte as nat),
            JournalError::UnknownCompression { flags } => "unknown compression flags: "@
                + decimal_chars(*flags as nat),
            JournalError::UnknownState { state } => "unknown journal state: "@ + decimal_chars(
                *state as nat,
            ),
            JournalError::InvalidCursor { cursor } => "invalid cursor string: '"@ + cursor@
                + "'"@,
            JournalError::Io(_) => "I/O error: "@,
        }
    }

    /// The human-readable description of this error.
    pub fn to_string(&self) -> (s: String)
        ensures
            !(self is Io) ==> s@ == self.spec_message(),
            self matches JournalError::Io(e) ==> exists|d: String|
                vstd::string::to_string_from_display_ensures::<std::io::Error>(&e, d) && s@
                    == "I/O error: "@ + d@,
    {
        let mut s = String::new();
        match self {
            JournalError::InvalidMagic { found } => {
                push_str(&mut s, "invalid magic: expected LPKSHHRH, found [");
                let mut i: usize = 0;
                while i < 8
                    invariant
                        0 <= i <= 8,
                        s@ == "invalid magic: expected LPKSHHRH, found ["@ + hex_list_chars(
                            found@.take(i as int),
                        ),
                    decreases 8 - i,
                {
                    if i > 0 {
                        push_str(&mut s, ", ");
                    }
                    push_hex2(&mut s, found[i]);
                    proof {
                        let t = found@.take(i + 1);
                        assert(t.drop_last() =~= found@.take(i as int));
                        assert(t.last() == found@[i as int]);
                        if i == 0 {
                            assert(found@.take(0) =~= Seq::<u8>::empty());
                        }
                    }
                    i = i + 1;
                }
                proof {
                    assert(found@.take(8) =~= found@);
                }
                push_str(&mut s, "]");
            },
            JournalError::BufferTooShort { needed, got } => {
                push_str(&mut s, "buffer too short: needed ");
                push_radix(&mut s, *needed as u64, 10);
                push_str(&mut s, " bytes, got ");
                push_radix(&mut s, *got as u64, 10);
            },
            JournalError::InvalidObjectType { type_byte } => {
                push_str(&mut s, "invalid object type byte: ");
                push_radix(&mut s, *type_byte as u64, 10);
            },
            JournalError::UnknownCompression { flags } => {
                push_str(&mut s, "unknown compression flags: ");
                push_radix(&mut s, *flags as u64, 10);
            },
            JournalError::UnknownState { state } => {
                push_str(&mut s, "unknown journal state: ");
                push_radix(&mut s, *state as u64, 10);
            },
            JournalError::InvalidCursor { cursor } => {
                push_str(&mut s, "invalid cursor string: '");
                push_str(&mut s, cursor.as_str());
                push_str(&mut s, "'");
            },
            JournalError::Io(e) => {
                push_str(&mut s, "I/O error: ");
                let detail = e.to_string();
                push_str(&mut s, detail.as_str());
                assert(vstd::string::to_string_from_display_ensures::<std::io::Error>(e, detail));
            },
        }
        s
    }
}

} // verus!
