//! Core domain types for systemd journal forensic analysis: entries, their
//! fields, and the accessors for the well-known fields.
use vstd::prelude::*;
use vstd::utf8::encode_utf8;
use crate::text::{parse_unsigned_decimal, parse_unsigned_decimal_bytes, str_eq};

verus! {

/// A single key=value pair from a journal entry.
#[derive(Debug, Clone)]
pub struct JournalField {
    pub key: String,
    pub value: JournalFieldValue,
}

/// The value of a journal field — either valid UTF-8 text or raw binary bytes.
#[derive(Debug, Clone)]
pub enum JournalFieldValue {
    Text(String),
    Binary(Vec<u8>),
}

/// A single parsed journal entry.
#[derive(Debug, Clone)]
pub struct JournalEntry {
    pub seqnum: u64,
    pub realtime_us: u64,
    pub monotonic_us: u64,
    pub boot_id: [u8; 16],
    pub fields: Vec<JournalField>,
}

/// The text of the first field named `key`: `None` when no field has that name or
/// when the first such field holds binary data.
pub open spec fn spec_field(fields: Seq<JournalField>, key: Seq<char>) -> Option<Seq<char>>
    decreases fields.len(),
{
    if fields.len() == 0 {
        None
    } else if fields[0].key@ == key {
        match fields[0].value {
            JournalFieldValue::Text(s) => Some(s@),
            JournalFieldValue::Binary(_) => None,
        }
    } else {
        spec_field(fields.drop_first(), key)
    }
}

/// The text a borrowed string option holds.
pub open spec fn opt_str_view(o: Option<&str>) -> Option<Seq<char>> {
    match o {
        Some(s) => Some(s@),
        None => None,
    }
}

/// The number that the text of field `key` holds, read as `str::parse` reads an
/// unsigned integer no larger than `max`.
pub open spec fn spec_numeric_field(fields: Seq<JournalField>, key: Seq<char>, max: nat) -> Option<
    nat,
> {
    match spec_field(fields, key) {
        Some(t) => parse_unsigned_decimal(encode_utf8(t), max),
        None => None,
    }
}

proof fn lemma_spec_field_skip(fields: Seq<JournalField>, key: Seq<char>, i: int)
    requires
        0 <= i < fields.len(),
        fields[i].key@ != key,
    ensures
        spec_field(fields.skip(i), key) == spec_field(fields.skip(i + 1), key),
{
    assert(fields.skip(i).drop_first() =~= fields.skip(i + 1));
}

impl JournalEntry {
    /// Look up a text field by key name. Returns `None` if the key is absent
    /// or if the value is binary.
    ///
    /// Where several fields share the name, the first one decides.
    pub fn field(&self, key: &str) -> (res: Option<&str>)
        ensures
            opt_str_view(res) == spec_field(self.fields@, key@),
    {
        let mut i: usize = 0;
        proof {
            assert(self.fields@.skip(0) =~= self.fields@);
        }
        while i < self.fields.len()
            invariant
                0 <= i <= self.fields@.len(),
                spec_field(self.fields@, key@) == spec_field(self.fields@.skip(i as int), key@),
            decreases self.fields@.len() - i,
        {
            let f = &self.fields[i];
            if str_eq(f.key.as_str(), key) {
                proof {
                    assert(self.fields@.skip(i as int)[0] == *f);
                }
                return match &f.value {
                    JournalFieldValue::Text(s) => Some(s.as_str()),
                    JournalFieldValue::Binary(_) => None,
                };
            }
            proof {
                lemma_spec_field_skip(self.fields@, key@, i as int);
            }
            i = i + 1;
        }
        None
    }

    /// Convenience: return the `MESSAGE` field.
    pub fn message(&self) -> (res: Option<&str>)
        ensures
            opt_str_view(res) == spec_field(self.fields@, "MESSAGE"@),
    {
        self.field("MESSAGE")
    }

    /// Parse the `PRIORITY` field as a `u8`. Returns `None` if absent or unparseable.
    pub fn priority(&self) -> (res: Option<u8>)
        ensures
            res matches Some(p) ==> spec_numeric_field(self.fields@, "PRIORITY"@, 255) == Some(
                p as nat,
            ),
            res is None ==> spec_numeric_field(self.fields@, "PRIORITY"@, 255) is None,
    {
        match self.field("PRIORITY") {
            Some(t) => match parse_unsigned_decimal_bytes(t.as_bytes(), 255) {
                Some(v) => Some(v as u8),
                None => None,
            },
            None => None,
        }
    }

    /// Return the `SYSLOG_IDENTIFIER` field.
    pub fn syslog_identifier(&self) -> (res: Option<&str>)
        ensures
            opt_str_view(res) == spec_field(self.fields@, "SYSLOG_IDENTIFIER"@),
    {
        self.field("SYSLOG_IDENTIFIER")
    }

    /// Parse the `_PID` field as a `u32`. Returns `None` if absent or unparseable.
    pub fn pid(&self) -> (res: Option<u32>)
        ensures
            res matches Some(p) ==> spec_numeric_field(self.fields@, "_PID"@, u32::MAX as nat)
                == Some(p as nat),
            res is None ==> spec_numeric_field(self.fields@, "_PID"@, u32::MAX as nat) is None,
    {
        match self.field("_PID") {
            Some(t) => match parse_unsigned_decimal_bytes(t.as_bytes(), u32::MAX as u64) {
                Some(v) => Some(v as u32),
                None => None,
            },
            None => None,
        }
    }
}

/// A numeric field written in decimal (as this library writes numbers) reads back as
/// the number, for every number up to the field's maximum: `priority` for 0..=255,
/// `pid` for every `u32`.
pub proof fn law_numeric_field_reads_decimal(fields: Seq<JournalField>, key: Seq<char>, n: nat, max: nat)
    requires
        n <= max,
        spec_field(fields, key) == Some(crate::text::ascii_chars(crate::text::decimal_bytes(n))),
    ensures
        spec_numeric_field(fields, key, max) == Some(n),
{
    crate::text::lemma_radix_roundtrip(n, 10);
    crate::text::lemma_ascii_encode(crate::text::decimal_bytes(n));
    let d = crate::text::decimal_bytes(n);
    assert(d[0] != 43) by {
        assert(crate::text::digit_value(d[0], 10) is Some);
    }
}

} // verus!
