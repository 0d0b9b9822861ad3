//! Digits and ASCII text: the numbers this library writes into messages and
//! cursor strings, and the numbers it reads back from field values.
use vstd::prelude::*;
use vstd::arithmetic::div_mod::lemma_fundamental_div_mod;
use vstd::utf8::{encode_utf8, encode_utf8_decode_utf8, is_ascii_chars, is_ascii_chars_encode_utf8};

verus! {

/// The ASCII byte of the digit `d` (lowercase for `d >= 10`).
pub open spec fn digit_byte(d: nat) -> u8 {
    if d < 10 {
        (48 + d) as u8
    } else {
        (87 + d) as u8
    }
}

/// ASCII bytes read as characters.
pub open spec fn ascii_chars(b: Seq<u8>) -> Seq<char> {
    b.map_values(|x: u8| x as char)
}

/// True when every byte is ASCII.
pub open spec fn all_ascii(b: Seq<u8>) -> bool {
    forall|i: int| 0 <= i < b.len() ==> #[trigger] b[i] < 128
}

/// The digits of `n` in `base`, most significant first, without leading zeros
/// (zero is the single digit `0`).
pub open spec fn radix_bytes(n: nat, base: nat) -> Seq<u8>
    decreases n,
{
    if base < 2 || n < base {
        seq![digit_byte(n)]
    } else {
        proof {
            lemma_div_shrinks(n, base);
        }
        radix_bytes(n / base, base).push(digit_byte(n % base))
    }
}

/// Dividing by a base of at least two makes a number of at least that base smaller.
pub proof fn lemma_div_shrinks(n: nat, base: nat)
    requires
        base >= 2,
        n >= base,
    ensures
        n / base < n,
{
    assert(n / base < n) by (nonlinear_arith)
        requires
            n >= base,
            base >= 2,
    ;
}

/// The decimal digits of `n`.
pub open spec fn decimal_bytes(n: nat) -> Seq<u8> {
    radix_bytes(n, 10)
}

/// The lowercase hexadecimal digits of `n`.
pub open spec fn hex_bytes(n: nat) -> Seq<u8> {
    radix_bytes(n, 16)
}

/// The two lowercase hexadecimal digits of a byte, zero padded.
pub open spec fn hex2_bytes(b: u8) -> Seq<u8> {
    seq![digit_byte((b / 16) as nat), digit_byte((b % 16) as nat)]
}

/// The value of one digit byte in `base` (10 or 16; both cases of hex letters).
pub open spec fn digit_value(b: u8, base: nat) -> Option<nat> {
    if 48 <= b <= 57 && b - 48 < base {
        Some((b - 48) as nat)
    } else if base == 16 && 97 <= b <= 102 {
        Some((b - 87) as nat)
    } else if base == 16 && 65 <= b <= 70 {
        Some((b - 55) as nat)
    } else {
        None
    }
}

/// True when every byte of `s` is a digit in `base`.
pub open spec fn all_digits(s: Seq<u8>, base: nat) -> bool {
    forall|i: int| 0 <= i < s.len() ==> (#[trigger] digit_value(s[i], base)) is Some
}

/// The number written by the digits `s` in `base`, most significant first.
pub open spec fn radix_value(s: Seq<u8>, base: nat) -> nat
    decreases s.len(),
{
    if s.len() == 0 {
        0
    } else {
        radix_value(s.drop_last(), base) * base + digit_value(s.last(), base).unwrap()
    }
}

/// `s` read as a number in `base` when it is a non-empty run of digits whose value
/// does not exceed `max`.
pub open spec fn parse_radix(s: Seq<u8>, base: nat, max: nat) -> Option<nat> {
    if s.len() > 0 && all_digits(s, base) && radix_value(s, base) <= max {
        Some(radix_value(s, base))
    } else {
        None
    }
}

/// `s` read as an unsigned decimal number no larger than `max`, with an optional
/// leading `+`: the numbers that `str::parse` accepts for an unsigned integer type.
pub open spec fn parse_unsigned_decimal(s: Seq<u8>, max: nat) -> Option<nat> {
    if s.len() > 0 && s[0] == 43 {
        parse_radix(s.drop_first(), 10, max)
    } else {
        parse_radix(s, 10, max)
    }
}

proof fn lemma_digit_byte_char(d: nat)
    requires
        d < 16,
    ensures
        seq!['0', '1', '2', '3', '4', '5', '6', '7', '8', '9', 'a', 'b', 'c', 'd', 'e', 'f'][d as int]
            == (digit_byte(d) as char),
{
    let lit = seq!['0', '1', '2', '3', '4', '5', '6', '7', '8', '9', 'a', 'b', 'c', 'd', 'e', 'f'];
    assert(d == 0 || d == 1 || d == 2 || d == 3 || d == 4 || d == 5 || d == 6 || d == 7 || d == 8
        || d == 9 || d == 10 || d == 11 || d == 12 || d == 13 || d == 14 || d == 15);
    assert(lit[0] == '0' && lit[1] == '1' && lit[2] == '2' && lit[3] == '3');
    assert(lit[4] == '4' && lit[5] == '5' && lit[6] == '6' && lit[7] == '7');
    assert(lit[8] == '8' && lit[9] == '9' && lit[10] == 'a' && lit[11] == 'b');
    assert(lit[12] == 'c' && lit[13] == 'd' && lit[14] == 'e' && lit[15] == 'f');
}

/// A one-character string holding the digit `d`.
fn digit_str(d: u8) -> (s: &'static str)
    requires
        d < 16,
    ensures
        s@ == ascii_chars(seq![digit_byte(d as nat)]),
{
    let digits = "0123456789abcdef";
    proof {
        reveal_strlit("0123456789abcdef");
        assert(digits@ =~= seq![
            '0', '1', '2', '3', '4', '5', '6', '7', '8', '9', 'a', 'b', 'c', 'd', 'e', 'f',
        ]);
        lemma_digit_byte_char(d as nat);
    }
    let s = digits.substring_ascii(d as usize, d as usize + 1);
    assert(s@ =~= ascii_chars(seq![digit_byte(d as nat)]));
    s
}

proof fn lemma_ascii_chars_push(b: Seq<u8>, x: u8)
    ensures
        ascii_chars(b.push(x)) == ascii_chars(b) + ascii_chars(seq![x]),
{
    assert(ascii_chars(b.push(x)) =~= ascii_chars(b) + ascii_chars(seq![x]));
}

/// Appends the digits of `n` in `base` to `s`.
pub fn push_radix(s: &mut String, n: u64, base: u64)
    requires
        base == 10 || base == 16,
    ensures
        final(s)@ == old(s)@ + ascii_chars(radix_bytes(n as nat, base as nat)),
    decreases n,
{
    if n < base {
        let d = digit_str(n as u8);
        s.append(d);
    } else {
        push_radix(s, n / base, base);
        let d = digit_str((n % base) as u8);
        s.append(d);
        proof {
            lemma_ascii_chars_push(
                radix_bytes((n / base) as nat, base as nat),
                digit_byte((n % base) as nat),
            );
        }
    }
}

/// Appends the two zero-padded lowercase hexadecimal digits of `b` to `s`.
pub fn push_hex2(s: &mut String, b: u8)
    ensures
        final(s)@ == old(s)@ + ascii_chars(hex2_bytes(b)),
{
    let hi = digit_str(b / 16);
    s.append(hi);
    let lo = digit_str(b % 16);
    s.append(lo);
    assert(ascii_chars(hex2_bytes(b)) =~= ascii_chars(seq![digit_byte((b / 16) as nat)])
        + ascii_chars(seq![digit_byte((b % 16) as nat)]));
}

/// Appends the text `t` to `s`.
pub fn push_str(s: &mut String, t: &str)
    ensures
        final(s)@ == old(s)@ + t@,
{
    s.append(t);
}

/// A digit byte is ASCII and reads back as the digit it was made from.
pub proof fn lemma_digit_byte_roundtrip(d: nat, base: nat)
    requires
        base == 10 || base == 16,
        d < base,
    ensures
        digit_byte(d) < 128,
        digit_value(digit_byte(d), base) == Some(d),
{
}

/// The digits of `n` are ASCII digits in `base` and read back as `n`.
pub proof fn lemma_radix_roundtrip(n: nat, base: nat)
    requires
        base == 10 || base == 16,
    ensures
        radix_bytes(n, base).len() > 0,
        all_digits(radix_bytes(n, base), base),
        all_ascii(radix_bytes(n, base)),
        radix_value(radix_bytes(n, base), base) == n,
    decreases n,
{
    if n < base {
        lemma_digit_byte_roundtrip(n, base);
        let r = radix_bytes(n, base);
        assert(r.drop_last() =~= Seq::<u8>::empty());
        assert(radix_value(r.drop_last(), base) == 0);
    } else {
        lemma_fundamental_div_mod(n as int, base as int);
        assert(n / base < n) by (nonlinear_arith)
            requires
                n >= base,
                base >= 2,
        ;
        lemma_radix_roundtrip(n / base, base);
        lemma_digit_byte_roundtrip(n % base, base);
        let prev = radix_bytes(n / base, base);
        let r = radix_bytes(n, base);
        assert(r.drop_last() =~= prev);
        assert(r.last() == digit_byte(n % base));
        assert forall|i: int| 0 <= i < r.len() implies (#[trigger] digit_value(r[i], base)) is Some by {
            if i < prev.len() {
                assert(r[i] == prev[i]);
            }
        }
        assert forall|i: int| 0 <= i < r.len() implies #[trigger] r[i] < 128 by {
            if i < prev.len() {
                assert(r[i] == prev[i]);
            }
        }
        assert(radix_value(r, base) == (n / base) * base + n % base);
        assert((n / base) * base + n % base == n) by (nonlinear_arith)
            requires
                n == base * (n / base) + (n % base),
        ;
    }
}

proof fn lemma_radix_value_step(s: Seq<u8>, base: nat, k: int)
    requires
        0 <= k < s.len(),
    ensures
        radix_value(s.take(k + 1), base) == radix_value(s.take(k), base) * base + digit_value(
            s[k],
            base,
        ).unwrap(),
{
    assert(s.take(k + 1).drop_last() =~= s.take(k));
}

/// Reads `s[start..end]` as a number in `base` (10 or 16) no larger than `max`.
pub fn parse_radix_range(s: &[u8], start: usize, end: usize, base: u64, max: u64) -> (res: Option<
    u64,
>)
    requires
        base == 10 || base == 16,
        start <= end <= s@.len(),
    ensures
        res matches Some(v) ==> parse_radix(s@.subrange(start as int, end as int), base as nat, max as nat) == Some(v as nat),
        res is None ==> parse_radix(s@.subrange(start as int, end as int), base as nat, max as nat) is None,
{
    let ghost sub = s@.subrange(start as int, end as int);
    if start == end {
        return None;
    }
    let mut acc: u64 = 0;
    let mut over = false;
    let mut i = start;
    while i < end
        invariant
            start <= i <= end <= s@.len(),
            sub == s@.subrange(start as int, end as int),
            base == 10 || base == 16,
            all_digits(sub.take(i - start), base as nat),
            !over ==> acc as nat == radix_value(sub.take(i - start), base as nat),
            !over ==> acc <= max,
            over ==> radix_value(sub.take(i - start), base as nat) > max,
        decreases end - i,
    {
        let b = s[i];
        let d: u64 = if 48 <= b && b <= 57 && ((b - 48) as u64) < base {
            (b - 48) as u64
        } else if base == 16 && 97 <= b && b <= 102 {
            (b - 87) as u64
        } else if base == 16 && 65 <= b && b <= 70 {
            (b - 55) as u64
        } else {
            proof {
                assert(sub[i - start] == b);
                assert(!all_digits(sub, base as nat));
            }
            return None;
        };
        proof {
            assert(sub[i - start] == b);
            assert(digit_value(b, base as nat) == Some(d as nat));
            lemma_radix_value_step(sub, base as nat, i - start);
            assert(all_digits(sub.take(i + 1 - start), base as nat)) by {
                let t = sub.take(i + 1 - start);
                assert forall|j: int| 0 <= j < t.len() implies (#[trigger] digit_value(t[j], base as nat)) is Some by {
                    if j < i - start {
                        assert(t[j] == sub.take(i - start)[j]);
                    } else {
                        assert(t[j] == b);
                    }
                }
            }
        }
        if over {
            proof {
                let v = radix_value(sub.take(i - start), base as nat);
                assert(v * base + d >= v) by (nonlinear_arith)
                    requires
                        base >= 1,
                ;
            }
        } else if d > max {
            proof {
                let v = radix_value(sub.take(i - start), base as nat);
                assert(v * base + d > max) by (nonlinear_arith)
                    requires
                        d > max,
                        base >= 1,
                ;
            }
            over = true;
        } else {
            let lim = (max - d) / base;
            if acc > lim {
                proof {
                    assert(acc * base + d > max) by (nonlinear_arith)
                        requires
                            acc > lim,
                            lim as int == (max as int - d as int) / (base as int),
                            base >= 1,
                            d <= max,
                    ;
                }
                over = true;
            } else {
                proof {
                    assert(acc * base + d <= max) by (nonlinear_arith)
                        requires
                            acc <= lim,
                            lim as int == (max as int - d as int) / (base as int),
                            base >= 1,
                            d <= max,
                    ;
                }
                acc = acc * base + d;
            }
        }
        i = i + 1;
    }
    proof {
        assert(sub.take(end - start) =~= sub);
    }
    if over {
        None
    } else {
        Some(acc)
    }
}

/// Reads `s` as an unsigned decimal number no larger than `max`, accepting an
/// optional leading `+` as `str::parse` does for unsigned integer types.
pub fn parse_unsigned_decimal_bytes(s: &[u8], max: u64) -> (res: Option<u64>)
    ensures
        res matches Some(v) ==> parse_unsigned_decimal(s@, max as nat) == Some(v as nat),
        res is None ==> parse_unsigned_decimal(s@, max as nat) is None,
{
    if s.len() > 0 && s[0] == 43 {
        assert(s@.subrange(1, s@.len() as int) =~= s@.drop_first());
        parse_radix_range(s, 1, s.len(), 10, max)
    } else {
        assert(s@.subrange(0, s@.len() as int) =~= s@);
        parse_radix_range(s, 0, s.len(), 10, max)
    }
}

/// True when two strings hold the same characters (compared through their UTF-8
/// bytes, which determine the characters).
pub fn str_eq(a: &str, b: &str) -> (res: bool)
    ensures
        res == (a@ == b@),
{
    let x = a.as_bytes();
    let y = b.as_bytes();
    proof {
        encode_utf8_decode_utf8(a@);
        encode_utf8_decode_utf8(b@);
    }
    bytes_eq(x, y)
}

/// True when two byte slices hold the same bytes.
pub fn bytes_eq(x: &[u8], y: &[u8]) -> (res: bool)
    ensures
        res == (x@ == y@),
{
    if x.len() != y.len() {
        return false;
    }
    let mut i: usize = 0;
    while i < x.len()
        invariant
            0 <= i <= x@.len(),
            x@.len() == y@.len(),
            forall|j: int| 0 <= j < i ==> x@[j] == y@[j],
        decreases x@.len() - i,
    {
        if x[i] != y[i] {
            return false;
        }
        i = i + 1;
    }
    assert(x@ =~= y@);
    true
}

/// The UTF-8 bytes of ASCII text are the text's own bytes.
pub proof fn lemma_ascii_encode(b: Seq<u8>)
    requires
        all_ascii(b),
    ensures
        encode_utf8(ascii_chars(b)) == b,
{
    let c = ascii_chars(b);
    assert forall|i: int| 0 <= i < c.len() implies '\0' <= #[trigger] c[i] <= '\u{7f}' by {
        assert(c[i] == (b[i] as char));
        assert(b[i] < 128);
    }
    assert(is_ascii_chars(c));
    is_ascii_chars_encode_utf8(c);
    assert forall|i: int| 0 <= i < b.len() implies encode_utf8(c)[i] == b[i] by {
        assert(c[i] as u8 == encode_utf8(c)[i]);
        assert(c[i] == (b[i] as char));
    }
    assert(encode_utf8(c) =~= b);
}

} // verus!
