//! Journal cursors: `s=<seqnum_id>;i=<seqnum>;b=<boot_id>;m=<monotonic>;t=<realtime>;x=<xor_hash>`,
//! with both identifiers as 32 hexadecimal digits and the numbers in hexadecimal.
use vstd::prelude::*;
use crate::binary::{id_from_bytes, lemma_id_from_bytes};
use crate::error::JournalError;
use crate::text::{
    all_ascii, all_digits, ascii_chars, digit_byte, digit_value, hex2_bytes, hex_bytes,
    lemma_ascii_encode, lemma_digit_byte_roundtrip, lemma_radix_roundtrip, parse_radix,
    parse_radix_range, push_hex2, push_radix, push_str, radix_bytes,
};
use vstd::utf8::encode_utf8;

verus! {

/// A parsed journal cursor string.
///
/// Format: `s=<seqnum_id_hex>;i=<seqnum_hex>;b=<boot_id_hex>;m=<monotonic_hex>;t=<realtime_hex>;x=<xor_hash_hex>`
#[derive(Debug, Clone, Copy, PartialEq, Eq)]
pub struct JournalCursor {
    pub seqnum_id: [u8; 16],
    pub seqnum: u64,
    pub boot_id: [u8; 16],
    pub monotonic_us: u64,
    pub realtime_us: u64,
    pub xor_hash: u64,
}

/// The ASCII byte `;`.
pub open spec fn semicolon() -> u8 {
    59
}

/// The three bytes `;k=` that introduce the cursor field named by the letter `k`.
pub open spec fn key_bytes(k: u8) -> Seq<u8> {
    seq![59u8, k, 61u8]
}

/// The bytes of an identifier as zero-padded lowercase hexadecimal, two digits per byte.
pub open spec fn id_hex(s: Seq<u8>) -> Seq<u8>
    decreases s.len(),
{
    if s.len() == 0 {
        Seq::empty()
    } else {
        hex2_bytes(s[0]) + id_hex(s.drop_first())
    }
}

/// The canonical text of a cursor, as bytes: lowercase hexadecimal, identifiers
/// zero-padded to 32 digits, numbers without leading zeros.
pub open spec fn cursor_bytes(c: JournalCursor) -> Seq<u8> {
    seq![115u8, 61u8] + (id_hex(c.seqnum_id@) + (key_bytes(105) + (hex_bytes(c.seqnum as nat) + (
    key_bytes(98) + (id_hex(c.boot_id@) + (key_bytes(109) + (hex_bytes(c.monotonic_us as nat) + (
    key_bytes(116) + (hex_bytes(c.realtime_us as nat) + (key_bytes(120) + hex_bytes(
        c.xor_hash as nat,
    )))))))))))
}

/// The 16 bytes written by 32 hexadecimal digits.
pub open spec fn id_value(h: Seq<u8>) -> Seq<u8> {
    Seq::new(
        16,
        |k: int|
            (digit_value(h[2 * k], 16).unwrap() * 16 + digit_value(h[2 * k + 1], 16).unwrap()) as u8,
    )
}

/// Reads an identifier (32 hexadecimal digits, either case) from the front of `b`;
/// gives its bytes and the rest of `b`.
pub open spec fn take_id(b: Seq<u8>) -> Option<(Seq<u8>, Seq<u8>)> {
    if b.len() >= 32 && all_digits(b.take(32), 16) {
        Some((id_value(b.take(32)), b.skip(32)))
    } else {
        None
    }
}

/// The index of the first `;` at or after `i`, or the length of `b`.
pub open spec fn semi_index(b: Seq<u8>, i: int) -> int
    decreases b.len() - i,
{
    if i >= b.len() {
        b.len() as int
    } else if b[i] == semicolon() {
        i
    } else {
        semi_index(b, i + 1)
    }
}

/// Reads a hexadecimal number (either case, at most `u64::MAX`) that runs up to the
/// next `;` or the end of `b`; gives it and the rest of `b` from that point.
pub open spec fn take_hex(b: Seq<u8>) -> Option<(u64, Seq<u8>)> {
    let j = semi_index(b, 0);
    match parse_radix(b.take(j), 16, u64::MAX as nat) {
        Some(v) => Some((v as u64, b.skip(j))),
        None => None,
    }
}

/// Reads `;k=` from the front of `b`; gives the rest of `b`.
pub open spec fn take_key(b: Seq<u8>, k: u8) -> Option<Seq<u8>> {
    if b.len() >= 3 && b[0] == 59 && b[1] == k && b[2] == 61 {
        Some(b.skip(3))
    } else {
        None
    }
}

/// The cursor written by the bytes `b`, if `b` has the cursor format: the six fields
/// in order, nothing before or after them.
pub open spec fn spec_parse_cursor(b: Seq<u8>) -> Option<JournalCursor> {
    if !(b.len() >= 2 && b[0] == 115 && b[1] == 61) {
        None
    } else {
        match take_id(b.skip(2)) {
            None => None,
            Some((sid, r1)) => match take_key(r1, 105) {
                None => None,
                Some(r2) => match take_hex(r2) {
                    None => None,
                    Some((seqnum, r3)) => match take_key(r3, 98) {
                        None => None,
                        Some(r4) => match take_id(r4) {
                            None => None,
                            Some((bid, r5)) => match take_key(r5, 109) {
                                None => None,
                                Some(r6) => match take_hex(r6) {
                                    None => None,
                                    Some((mono, r7)) => match take_key(r7, 116) {
                                        None => None,
                                        Some(r8) => match take_hex(r8) {
                                            None => None,
                                            Some((rt, r9)) => match take_key(r9, 120) {
                                                None => None,
                                                Some(r10) => match take_hex(r10) {
                                                    None => None,
                                                    Some((xh, r11)) => if r11.len() == 0 {
                                                        Some(
                                                            JournalCursor {
                                                                seqnum_id: id_from_bytes(sid),
                                                                seqnum,
                                                                boot_id: id_from_bytes(bid),
                                                                monotonic_us: mono,
                                                                realtime_us: rt,
                                                                xor_hash: xh,
                                                            },
                                                        )
                                                    } else {
                                                        None
                                                    },
                                                },
                                            },
                                        },
                                    },
                                },
                            },
                        },
                    },
                },
            },
        }
    }
}

// ----- reading, position by position -----

proof fn lemma_skip_skip(b: Seq<u8>, p: int, n: int)
    requires
        0 <= p,
        0 <= n,
        p + n <= b.len(),
    ensures
        b.skip(p).skip(n) == b.skip(p + n),
{
    assert(b.skip(p).skip(n) =~= b.skip(p + n));
}

/// Reads `;k=` at `pos`; gives the position after it.
fn exec_take_key(b: &[u8], pos: usize, k: u8) -> (res: Option<usize>)
    requires
        pos <= b@.len(),
    ensures
        match take_key(b@.skip(pos as int), k) {
            None => res is None,
            Some(r) => res matches Some(p) && p <= b@.len() && b@.skip(p as int) == r,
        },
{
    if b.len() - pos >= 3 && b[pos] == 59 && b[pos + 1] == k && b[pos + 2] == 61 {
        proof {
            lemma_skip_skip(b@, pos as int, 3);
        }
        Some(pos + 3)
    } else {
        None
    }
}

/// The value of one hexadecimal digit byte.
fn hex_digit(c: u8) -> (d: u8)
    requires
        digit_value(c, 16) is Some,
    ensures
        d as nat == digit_value(c, 16).unwrap(),
        d < 16,
{
    if c <= 57 {
        c - 48
    } else if c >= 97 {
        c - 87
    } else {
        c - 55
    }
}

/// Reads an identifier at `pos`; gives its bytes and the position after it.
fn exec_take_id(b: &[u8], pos: usize) -> (res: Option<([u8; 16], usize)>)
    requires
        pos <= b@.len(),
    ensures
        match take_id(b@.skip(pos as int)) {
            None => res is None,
            Some((id, r)) => res matches Some((a, p)) && a@ == id && p <= b@.len() && b@.skip(
                p as int,
            ) == r,
        },
{
    let ghost s = b@.skip(pos as int);
    if b.len() - pos < 32 {
        return None;
    }
    let mut v: Vec<u8> = Vec::new();
    let mut k: usize = 0;
    while k < 16
        invariant
            0 <= k <= 16,
            pos + 32 <= b@.len(),
            b@.len() <= usize::MAX,
            s == b@.skip(pos as int),
            v@.len() == k,
            all_digits(s.take(2 * k), 16),
            forall|q: int| 0 <= q < k ==> #[trigger] v@[q] == id_value(s.take(32))[q],
        decreases 16 - k,
    {
        let c1 = b[pos + 2 * k];
        let c2 = b[pos + 2 * k + 1];
        let ok1 = (48 <= c1 && c1 <= 57) || (97 <= c1 && c1 <= 102) || (65 <= c1 && c1 <= 70);
        let ok2 = (48 <= c2 && c2 <= 57) || (97 <= c2 && c2 <= 102) || (65 <= c2 && c2 <= 70);
        proof {
            assert(s[2 * k] == c1);
            assert(s[2 * k + 1] == c2);
            assert(s.take(32)[2 * k] == c1);
            assert(s.take(32)[2 * k + 1] == c2);
        }
        if !ok1 || !ok2 {
            proof {
                if !ok1 {
                    assert(s.take(32)[2 * k] == c1);
                    assert(digit_value(s.take(32)[2 * k], 16) is None);
                } else {
                    assert(digit_value(s.take(32)[2 * k + 1], 16) is None);
                }
                assert(!all_digits(s.take(32), 16));
            }
            return None;
        }
        let hi = hex_digit(c1);
        let lo = hex_digit(c2);
        v.push(hi * 16 + lo);
        proof {
            let t = s.take(2 * k + 2);
            assert forall|q: int| 0 <= q < t.len() implies (#[trigger] digit_value(t[q], 16)) is Some by {
                if q < 2 * k {
                    assert(t[q] == s.take(2 * k)[q]);
                } else if q == 2 * k {
                    assert(t[q] == c1);
                } else {
                    assert(t[q] == c2);
                }
            }
        }
        k = k + 1;
    }
    let id = [
        v[0],
        v[1],
        v[2],
        v[3],
        v[4],
        v[5],
        v[6],
        v[7],
        v[8],
        v[9],
        v[10],
        v[11],
        v[12],
        v[13],
        v[14],
        v[15],
    ];
    proof {
        assert(s.take(32) =~= s.take(2 * 16int));
        assert(id@ =~= id_value(s.take(32)));
        lemma_skip_skip(b@, pos as int, 32);
    }
    Some((id, pos + 32))
}

proof fn lemma_semi_index_found(b: Seq<u8>, i: int, m: int)
    requires
        0 <= i <= m <= b.len(),
        forall|q: int| i <= q < m ==> b[q] != semicolon(),
        m == b.len() || b[m] == semicolon(),
    ensures
        semi_index(b, i) == m,
    decreases m - i,
{
    if i < m {
        lemma_semi_index_found(b, i + 1, m);
    }
}

/// Reads a hexadecimal number at `pos`, running to the next `;` or the end; gives it
/// and the position after it.
fn exec_take_hex(b: &[u8], pos: usize) -> (res: Option<(u64, usize)>)
    requires
        pos <= b@.len(),
    ensures
        match take_hex(b@.skip(pos as int)) {
            None => res is None,
            Some((v, r)) => res matches Some((x, p)) && x == v && p <= b@.len() && b@.skip(p as int)
                == r,
        },
{
    let ghost s = b@.skip(pos as int);
    let mut j = pos;
    while j < b.len() && b[j] != 59
        invariant
            pos <= j <= b@.len(),
            s == b@.skip(pos as int),
            forall|q: int| pos <= q < j ==> b@[q] != semicolon(),
        decreases b@.len() - j,
    {
        j = j + 1;
    }
    proof {
        assert forall|q: int| 0 <= q < j - pos implies s[q] != semicolon() by {
            assert(s[q] == b@[pos + q]);
        }
        if j < b@.len() {
            assert(s[j - pos] == b@[j as int]);
        }
        lemma_semi_index_found(s, 0, j - pos);
        assert(s.take(j - pos) =~= b@.subrange(pos as int, j as int));
        lemma_skip_skip(b@, pos as int, j - pos);
    }
    match parse_radix_range(b, pos, j, 16, u64::MAX) {
        Some(v) => Some((v, j)),
        None => None,
    }
}

impl JournalCursor {
    /// Parse a journal cursor string into a `JournalCursor`.
    ///
    /// The six fields must appear in order; identifiers are 32 hexadecimal digits and
    /// the numbers are non-empty hexadecimal (either case, at most `u64::MAX`). Any other
    /// string is `InvalidCursor` holding the string.
    pub fn parse(cursor_str: &str) -> (res: Result<Self, JournalError>)
        ensures
            res matches Ok(c) ==> spec_parse_cursor(encode_utf8(cursor_str@)) == Some(c),
            res is Err ==> spec_parse_cursor(encode_utf8(cursor_str@)) is None,
            res is Err ==> (res matches Err(JournalError::InvalidCursor { cursor }) && cursor@
                == cursor_str@),
    {
        let b = cursor_str.as_bytes();
        match Self::parse_bytes(b) {
            Some(c) => Ok(c),
            None => Err(JournalError::InvalidCursor { cursor: cursor_str.to_owned() }),
        }
    }

    /// Parse the bytes of a cursor string.
    fn parse_bytes(b: &[u8]) -> (res: Option<Self>)
        ensures
            res == spec_parse_cursor(b@),
    {
        if !(b.len() >= 2 && b[0] == 115 && b[1] == 61) {
            return None;
        }
        let (sid, p1) = match exec_take_id(b, 2) {
            Some(x) => x,
            None => {
                return None;
            },
        };
        let p2 = match exec_take_key(b, p1, 105) {
            Some(p) => p,
            None => {
                return None;
            },
        };
        let (seqnum, p3) = match exec_take_hex(b, p2) {
            Some(x) => x,
            None => {
                return None;
            },
        };
        let p4 = match exec_take_key(b, p3, 98) {
            Some(p) => p,
            None => {
                return None;
            },
        };
        let (bid, p5) = match exec_take_id(b, p4) {
            Some(x) => x,
            None => {
                return None;
            },
        };
        let p6 = match exec_take_key(b, p5, 109) {
            Some(p) => p,
            None => {
                return None;
            },
        };
        let (mono, p7) = match exec_take_hex(b, p6) {
            Some(x) => x,
            None => {
                return None;
            },
        };
        let p8 = match exec_take_key(b, p7, 116) {
            Some(p) => p,
            None => {
                return None;
            },
        };
        let (rt, p9) = match exec_take_hex(b, p8) {
            Some(x) => x,
            None => {
                return None;
            },
        };
        let p10 = match exec_take_key(b, p9, 120) {
            Some(p) => p,
            None => {
                return None;
            },
        };
        let (xh, p11) = match exec_take_hex(b, p10) {
            Some(x) => x,
            None => {
                return None;
            },
        };
        if p11 != b.len() {
            return None;
        }
        proof {
            lemma_id_from_bytes(sid, sid@);
            lemma_id_from_bytes(bid, bid@);
        }
        Some(
            JournalCursor {
                seqnum_id: sid,
                seqnum,
                boot_id: bid,
                monotonic_us: mono,
                realtime_us: rt,
                xor_hash: xh,
            },
        )
    }

    /// Serialize back to the canonical cursor string format.
    pub fn to_string(&self) -> (s: String)
        ensures
            s@ == ascii_chars(cursor_bytes(*self)),
    {
        let mut s = String::new();
        push_str(&mut s, "s=");
        let ghost start = s@;
        push_id(&mut s, &self.seqnum_id);
        push_str(&mut s, ";i=");
        push_radix(&mut s, self.seqnum, 16);
        push_str(&mut s, ";b=");
        push_id(&mut s, &self.boot_id);
        push_str(&mut s, ";m=");
        push_radix(&mut s, self.monotonic_us, 16);
        push_str(&mut s, ";t=");
        push_radix(&mut s, self.realtime_us, 16);
        push_str(&mut s, ";x=");
        push_radix(&mut s, self.xor_hash, 16);
        proof {
            reveal_strlit("s=");
            reveal_strlit(";i=");
            reveal_strlit(";b=");
            reveal_strlit(";m=");
            reveal_strlit(";t=");
            reveal_strlit(";x=");
            lemma_ascii_chars_concat_cursor(*self);
        }
        s
    }
}

/// Appends the 32 hexadecimal digits of an identifier.
fn push_id(s: &mut String, id: &[u8; 16])
    ensures
        final(s)@ == old(s)@ + ascii_chars(id_hex(id@)),
{
    let ghost start = s@;
    let mut i: usize = 0;
    while i < 16
        invariant
            0 <= i <= 16,
            s@ == start + ascii_chars(id_hex(id@.take(i as int))),
        decreases 16 - i,
    {
        push_hex2(s, id[i]);
        proof {
            lemma_id_hex_push(id@.take(i as int), id@[i as int]);
            assert(id@.take(i + 1) =~= id@.take(i as int).push(id@[i as int]));
            assert(ascii_chars(id_hex(id@.take(i as int)) + hex2_bytes(id@[i as int])) =~= ascii_chars(
                id_hex(id@.take(i as int)),
            ) + ascii_chars(hex2_bytes(id@[i as int])));
        }
        i = i + 1;
    }
    assert(id@.take(16) =~= id@);
}

/// Hexadecimal of an identifier with one more byte.
proof fn lemma_id_hex_push(s: Seq<u8>, x: u8)
    ensures
        id_hex(s.push(x)) == id_hex(s) + hex2_bytes(x),
    decreases s.len(),
{
    if s.len() == 0 {
        assert(s.push(x).drop_first() =~= Seq::<u8>::empty());
        assert(id_hex(Seq::<u8>::empty()) =~= Seq::<u8>::empty());
        assert(id_hex(s.push(x)) =~= hex2_bytes(x));
    } else {
        assert(s.push(x).drop_first() =~= s.drop_first().push(x));
        lemma_id_hex_push(s.drop_first(), x);
        assert(id_hex(s.push(x)) =~= id_hex(s) + hex2_bytes(x));
    }
}

proof fn lemma_ascii_chars_concat_cursor(c: JournalCursor)
    ensures
        ascii_chars(cursor_bytes(c)) == "s="@ + ascii_chars(id_hex(c.seqnum_id@)) + ";i="@
            + ascii_chars(radix_bytes(c.seqnum as nat, 16)) + ";b="@ + ascii_chars(
            id_hex(c.boot_id@),
        ) + ";m="@ + ascii_chars(radix_bytes(c.monotonic_us as nat, 16)) + ";t="@ + ascii_chars(
            radix_bytes(c.realtime_us as nat, 16),
        ) + ";x="@ + ascii_chars(radix_bytes(c.xor_hash as nat, 16)),
{
    reveal_strlit("s=");
    reveal_strlit(";i=");
    reveal_strlit(";b=");
    reveal_strlit(";m=");
    reveal_strlit(";t=");
    reveal_strlit(";x=");
    assert(ascii_chars(cursor_bytes(c)) =~= "s="@ + ascii_chars(id_hex(c.seqnum_id@)) + ";i="@
        + ascii_chars(radix_bytes(c.seqnum as nat, 16)) + ";b="@ + ascii_chars(id_hex(c.boot_id@))
        + ";m="@ + ascii_chars(radix_bytes(c.monotonic_us as nat, 16)) + ";t="@ + ascii_chars(
        radix_bytes(c.realtime_us as nat, 16),
    ) + ";x="@ + ascii_chars(radix_bytes(c.xor_hash as nat, 16)));
}

// ----- the cursor text reads back as the cursor -----

proof fn lemma_id_hex_index(a: Seq<u8>, k: int)
    requires
        0 <= k < a.len(),
    ensures
        id_hex(a).len() == 2 * a.len(),
        id_hex(a)[2 * k] == digit_byte((a[k] / 16) as nat),
        id_hex(a)[2 * k + 1] == digit_byte((a[k] % 16) as nat),
    decreases a.len(),
{
    lemma_id_hex_len(a);
    if k > 0 {
        lemma_id_hex_index(a.drop_first(), k - 1);
        assert(id_hex(a)[2 * k] == id_hex(a.drop_first())[2 * (k - 1)]);
        assert(id_hex(a)[2 * k + 1] == id_hex(a.drop_first())[2 * (k - 1) + 1]);
    }
}

proof fn lemma_id_hex_len(a: Seq<u8>)
    ensures
        id_hex(a).len() == 2 * a.len(),
    decreases a.len(),
{
    if a.len() > 0 {
        lemma_id_hex_len(a.drop_first());
    }
}

proof fn lemma_id_hex_digits(a: Seq<u8>)
    ensures
        all_digits(id_hex(a), 16),
        all_ascii(id_hex(a)),
{
    lemma_id_hex_len(a);
    let h = id_hex(a);
    assert forall|q: int| 0 <= q < h.len() implies (#[trigger] digit_value(h[q], 16)) is Some
        && h[q] < 128 by {
        lemma_id_hex_byte(a, q);
    }
    assert forall|q: int| 0 <= q < h.len() implies #[trigger] h[q] < 128 by {
        lemma_id_hex_byte(a, q);
    }
}

proof fn lemma_id_hex_byte(a: Seq<u8>, q: int)
    requires
        0 <= q < id_hex(a).len(),
    ensures
        digit_value(id_hex(a)[q], 16) is Some,
        id_hex(a)[q] < 128,
{
    lemma_id_hex_len(a);
    let k = q / 2;
    lemma_id_hex_index(a, k);
    if q % 2 == 0 {
        assert(q == 2 * k);
        lemma_digit_byte_roundtrip((a[k] / 16) as nat, 16);
    } else {
        assert(q == 2 * k + 1);
        lemma_digit_byte_roundtrip((a[k] % 16) as nat, 16);
    }
}

/// An identifier's hexadecimal text reads back as the identifier.
proof fn lemma_take_id_roundtrip(a: Seq<u8>, r: Seq<u8>)
    requires
        a.len() == 16,
    ensures
        take_id(id_hex(a) + r) == Some((a, r)),
{
    let h = id_hex(a);
    let b = h + r;
    lemma_id_hex_len(a);
    lemma_id_hex_digits(a);
    assert(b.take(32) =~= h);
    assert(b.skip(32) =~= r);
    assert forall|k: int| 0 <= k < 16 implies #[trigger] id_value(h)[k] == a[k] by {
        lemma_id_hex_index(a, k);
        lemma_digit_byte_roundtrip((a[k] / 16) as nat, 16);
        lemma_digit_byte_roundtrip((a[k] % 16) as nat, 16);
    }
    assert(id_value(h) =~= a);
}

/// A field introducer reads back.
proof fn lemma_take_key_roundtrip(k: u8, r: Seq<u8>)
    ensures
        take_key(key_bytes(k) + r, k) == Some(r),
{
    assert((key_bytes(k) + r).skip(3) =~= r);
}

/// A number's hexadecimal text, followed by nothing or by `;`, reads back as the number.
proof fn lemma_take_hex_roundtrip(n: u64, r: Seq<u8>)
    requires
        r.len() == 0 || r[0] == semicolon(),
    ensures
        take_hex(hex_bytes(n as nat) + r) == Some((n, r)),
{
    let h = hex_bytes(n as nat);
    let b = h + r;
    lemma_radix_roundtrip(n as nat, 16);
    assert forall|q: int| 0 <= q < h.len() implies b[q] != semicolon() by {
        assert(b[q] == h[q]);
        assert(digit_value(h[q], 16) is Some);
    }
    lemma_semi_index_found(b, 0, h.len() as int);
    assert(b.take(h.len() as int) =~= h);
    assert(b.skip(h.len() as int) =~= r);
}

proof fn lemma_skip_prefix(x: Seq<u8>, y: Seq<u8>)
    ensures
        (x + y).skip(x.len() as int) == y,
{
    assert((x + y).skip(x.len() as int) =~= y);
}

proof fn lemma_cursor_bytes_ascii(c: JournalCursor)
    ensures
        all_ascii(cursor_bytes(c)),
{
    lemma_id_hex_digits(c.seqnum_id@);
    lemma_id_hex_digits(c.boot_id@);
    lemma_radix_roundtrip(c.seqnum as nat, 16);
    lemma_radix_roundtrip(c.monotonic_us as nat, 16);
    lemma_radix_roundtrip(c.realtime_us as nat, 16);
    lemma_radix_roundtrip(c.xor_hash as nat, 16);
    let b = cursor_bytes(c);
    assert forall|i: int| 0 <= i < b.len() implies #[trigger] b[i] < 128 by {
        lemma_all_ascii_concat_cursor(c, i);
    }
}

proof fn lemma_ascii_concat(x: Seq<u8>, y: Seq<u8>)
    requires
        all_ascii(x),
        all_ascii(y),
    ensures
        all_ascii(x + y),
{
    assert forall|i: int| 0 <= i < (x + y).len() implies #[trigger] (x + y)[i] < 128 by {
        if i < x.len() {
            assert((x + y)[i] == x[i]);
        } else {
            assert((x + y)[i] == y[i - x.len()]);
        }
    }
}

proof fn lemma_all_ascii_concat_cursor(c: JournalCursor, i: int)
    requires
        all_ascii(id_hex(c.seqnum_id@)),
        all_ascii(id_hex(c.boot_id@)),
        all_ascii(hex_bytes(c.seqnum as nat)),
        all_ascii(hex_bytes(c.monotonic_us as nat)),
        all_ascii(hex_bytes(c.realtime_us as nat)),
        all_ascii(hex_bytes(c.xor_hash as nat)),
        0 <= i < cursor_bytes(c).len(),
    ensures
        cursor_bytes(c)[i] < 128,
{
    let k1 = key_bytes(105);
    let k2 = key_bytes(98);
    let k3 = key_bytes(109);
    let k4 = key_bytes(116);
    let k5 = key_bytes(120);
    assert(all_ascii(k1) && all_ascii(k2) && all_ascii(k3) && all_ascii(k4) && all_ascii(k5));
    assert(all_ascii(seq![115u8, 61u8]));
    let t10 = k5 + hex_bytes(c.xor_hash as nat);
    lemma_ascii_concat(k5, hex_bytes(c.xor_hash as nat));
    let t9 = hex_bytes(c.realtime_us as nat) + t10;
    lemma_ascii_concat(hex_bytes(c.realtime_us as nat), t10);
    let t8 = k4 + t9;
    lemma_ascii_concat(k4, t9);
    let t7 = hex_bytes(c.monotonic_us as nat) + t8;
    lemma_ascii_concat(hex_bytes(c.monotonic_us as nat), t8);
    let t6 = k3 + t7;
    lemma_ascii_concat(k3, t7);
    let t5 = id_hex(c.boot_id@) + t6;
    lemma_ascii_concat(id_hex(c.boot_id@), t6);
    let t4 = k2 + t5;
    lemma_ascii_concat(k2, t5);
    let t3 = hex_bytes(c.seqnum as nat) + t4;
    lemma_ascii_concat(hex_bytes(c.seqnum as nat), t4);
    let t2 = k1 + t3;
    lemma_ascii_concat(k1, t3);
    let t1 = id_hex(c.seqnum_id@) + t2;
    lemma_ascii_concat(id_hex(c.seqnum_id@), t2);
    lemma_ascii_concat(seq![115u8, 61u8], t1);
    assert(cursor_bytes(c) == seq![115u8, 61u8] + t1);
}

/// Parsing reads back every cursor from its canonical text: `parse(c.to_string())`
/// gives `c`, for every cursor `c`.
pub proof fn law_cursor_text_roundtrip(c: JournalCursor)
    ensures
        spec_parse_cursor(encode_utf8(ascii_chars(cursor_bytes(c)))) == Some(c),
{
    lemma_cursor_bytes_ascii(c);
    lemma_ascii_encode(cursor_bytes(c));
    let b = cursor_bytes(c);
    let k1 = key_bytes(105);
    let k2 = key_bytes(98);
    let k3 = key_bytes(109);
    let k4 = key_bytes(116);
    let k5 = key_bytes(120);
    let h4 = hex_bytes(c.xor_hash as nat);
    let t10 = k5 + h4;
    let t9 = hex_bytes(c.realtime_us as nat) + t10;
    let t8 = k4 + t9;
    let t7 = hex_bytes(c.monotonic_us as nat) + t8;
    let t6 = k3 + t7;
    let t5 = id_hex(c.boot_id@) + t6;
    let t4 = k2 + t5;
    let t3 = hex_bytes(c.seqnum as nat) + t4;
    let t2 = k1 + t3;
    let t1 = id_hex(c.seqnum_id@) + t2;
    assert(b == seq![115u8, 61u8] + t1);
    lemma_skip_prefix(seq![115u8, 61u8], t1);
    assert(b.skip(2) == t1);
    lemma_take_id_roundtrip(c.seqnum_id@, t2);
    lemma_take_key_roundtrip(105, t3);
    lemma_take_hex_roundtrip(c.seqnum, t4);
    lemma_take_key_roundtrip(98, t5);
    lemma_take_id_roundtrip(c.boot_id@, t6);
    lemma_take_key_roundtrip(109, t7);
    lemma_take_hex_roundtrip(c.monotonic_us, t8);
    lemma_take_key_roundtrip(116, t9);
    lemma_take_hex_roundtrip(c.realtime_us, t10);
    lemma_take_key_roundtrip(120, h4);
    lemma_take_hex_roundtrip(c.xor_hash, Seq::<u8>::empty());
    assert(h4 + Seq::<u8>::empty() =~= h4);
    lemma_id_from_bytes(c.seqnum_id, c.seqnum_id@);
    lemma_id_from_bytes(c.boot_id, c.boot_id@);
}

} // verus!
