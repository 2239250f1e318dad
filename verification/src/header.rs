//! The header codec: the frequency table as a compact textual preamble,
//! one line `<escaped-byte>:<count>` per present byte value followed by
//! the sentinel line `---`, so the decoder can rebuild an identical tree
//! without the tree itself being transmitted.
//!
//! The escape scheme is total and unambiguous over all 256 byte values:
//! a printable ASCII byte other than the delimiter `:` and the backslash
//! stands for itself; every other byte is written as a backslash, an
//! `x`, and two uppercase hex digits.  Neither form can contain the
//! delimiter or the line terminator.

use vstd::prelude::*;
use vstd::arithmetic::div_mod::{lemma_div_is_strictly_smaller, lemma_fundamental_div_mod};
use crate::freq::{table_wf, FrequencyTable};

verus! {

/// A header line failed to parse: the sentinel is missing, a line does
/// not split on the delimiter, a byte escape is malformed, or a count is
/// not a valid representable non-negative integer.
#[derive(Debug, PartialEq, Eq, Structural, Clone, Copy)]
pub struct FormatError;

/// Bytes with a meaning of their own in the header syntax.
pub open spec fn nl() -> u8 {
    0x0a
}

pub open spec fn colon() -> u8 {
    0x3a
}

pub open spec fn backslash() -> u8 {
    0x5c
}

/// Whether a byte value stands for itself in a header line.
pub open spec fn is_plain(b: u8) -> bool {
    0x20 <= b <= 0x7e && b != colon() && b != backslash()
}

/// The uppercase hex digit of a value below 16.
pub open spec fn hex_digit(n: nat) -> u8 {
    if n < 10 {
        (0x30 + n) as u8
    } else {
        (0x41 + (n - 10)) as u8
    }
}

/// The escaped form of a byte value: itself if plain, else `\xHH`.
pub open spec fn escape_byte(b: u8) -> Seq<u8> {
    if is_plain(b) {
        seq![b]
    } else {
        seq![backslash(), 0x78, hex_digit((b as nat) / 16), hex_digit((b as nat) % 16)]
    }
}

/// The decimal digits of `n`, most significant first, no leading zeros.
pub open spec fn dec_digits(n: nat) -> Seq<u8>
    decreases n,
        via dec_digits_decreases
{
    if n < 10 {
        seq![(0x30 + n) as u8]
    } else {
        dec_digits(n / 10).push((0x30 + n % 10) as u8)
    }
}

#[via_fn]
proof fn dec_digits_decreases(n: nat) {
    if n >= 10 {
        lemma_div_is_strictly_smaller(n as int, 10);
    }
}

/// The header line of one table entry, newline included.
pub open spec fn header_line(b: u8, c: u64) -> Seq<u8> {
    escape_byte(b) + seq![colon()] + dec_digits(c as nat) + seq![nl()]
}

/// The sentinel line closing the header, newline included.
pub open spec fn sentinel() -> Seq<u8> {
    seq![0x2d, 0x2d, 0x2d, nl()]
}

/// The header lines of the table entries for byte values from `n` up,
/// in ascending byte order.
pub open spec fn header_lines_from(t: Seq<u64>, n: int) -> Seq<u8>
    decreases 256 - n,
{
    if n < 0 || n >= 256 {
        Seq::empty()
    } else {
        (if t[n] > 0 {
            header_line(n as u8, t[n])
        } else {
            Seq::<u8>::empty()
        }) + header_lines_from(t, n + 1)
    }
}

/// The serialized header of a table: one line per present byte value in
/// ascending byte order, then the sentinel line.
pub open spec fn spec_header(t: Seq<u64>) -> Seq<u8> {
    header_lines_from(t, 0) + sentinel()
}

/// Index of the first newline of `s` at or after `pos`, or `s.len()`
/// where none remains.
pub open spec fn find_nl(s: Seq<u8>, pos: int) -> int
    decreases s.len() - pos,
        when 0 <= pos <= s.len()
{
    if pos >= s.len() {
        s.len() as int
    } else if s[pos] == nl() {
        pos
    } else {
        find_nl(s, pos + 1)
    }
}

pub proof fn lemma_find_nl(s: Seq<u8>, pos: int)
    requires
        0 <= pos <= s.len(),
    ensures
        pos <= find_nl(s, pos) <= s.len(),
        find_nl(s, pos) < s.len() ==> s[find_nl(s, pos)] == nl(),
        forall|i: int| pos <= i < find_nl(s, pos) ==> s[i] != nl(),
    decreases s.len() - pos,
{
    if pos < s.len() && s[pos] != nl() {
        lemma_find_nl(s, pos + 1);
    }
}

/// Where the bytes before `k` hold no newline and `k` holds one, the
/// first newline is at `k`.
pub proof fn lemma_find_nl_at(s: Seq<u8>, pos: int, k: int)
    requires
        0 <= pos <= k < s.len(),
        forall|i: int| pos <= i < k ==> s[i] != nl(),
        s[k] == nl(),
    ensures
        find_nl(s, pos) == k,
    decreases k - pos,
{
    if pos < k {
        lemma_find_nl_at(s, pos + 1, k);
    }
}

/// Whether a byte is a decimal digit.
pub open spec fn is_digit(b: u8) -> bool {
    0x30 <= b <= 0x39
}

pub open spec fn all_digits(s: Seq<u8>) -> bool {
    forall|i: int| 0 <= i < s.len() ==> is_digit(#[trigger] s[i])
}

/// The numeric value of a digit string, most significant first.
pub open spec fn dec_val(s: Seq<u8>) -> int
    decreases s.len(),
{
    if s.len() == 0 {
        0
    } else {
        dec_val(s.drop_last()) * 10 + (s.last() - 0x30)
    }
}

/// The parsed count of a digit string: defined exactly for a non-empty
/// all-digit string whose value is representable.
pub open spec fn parse_count(s: Seq<u8>) -> Option<u64> {
    if s.len() >= 1 && all_digits(s) && dec_val(s) <= u64::MAX {
        Some(dec_val(s) as u64)
    } else {
        None
    }
}

/// Whether a byte is an uppercase hex digit, and its value.
pub open spec fn is_hex(b: u8) -> bool {
    (0x30 <= b <= 0x39) || (0x41 <= b <= 0x46)
}

pub open spec fn hex_val(b: u8) -> nat {
    if b <= 0x39 {
        (b - 0x30) as nat
    } else {
        (b - 0x41 + 10) as nat
    }
}

/// The parsed table entry of one header line (newline excluded): the
/// unescaped byte value before the first delimiter and the count after
/// it, or nothing where the line is malformed.
pub open spec fn parse_entry(line: Seq<u8>) -> Option<(u8, u64)> {
    if line.len() >= 2 && is_plain(line[0]) && line[1] == colon() {
        match parse_count(line.skip(2)) {
            Some(c) => Some((line[0], c)),
            None => None,
        }
    } else if line.len() >= 5 && line[0] == backslash() && line[1] == 0x78 && is_hex(line[2])
        && is_hex(line[3]) && line[4] == colon() {
        match parse_count(line.skip(5)) {
            Some(c) => Some(((hex_val(line[2]) * 16 + hex_val(line[3])) as u8, c)),
            None => None,
        }
    } else {
        None
    }
}

/// Parse header lines from the front of `s` into `acc` until the
/// sentinel line: the finished table and the number of bytes consumed,
/// or nothing where a line is malformed or the sentinel never comes.
pub open spec fn parse_lines(s: Seq<u8>, acc: Seq<u64>) -> Option<(Seq<u64>, int)>
    decreases s.len(),
        via parse_lines_decreases
{
    let k = find_nl(s, 0);
    if k >= s.len() {
        None
    } else if s.take(k) == seq![0x2du8, 0x2du8, 0x2du8] {
        Some((acc, k + 1))
    } else {
        match parse_entry(s.take(k)) {
            Some((b, c)) => match parse_lines(s.skip(k + 1), acc.update(b as int, c)) {
                Some((t, used)) => Some((t, k + 1 + used)),
                None => None,
            },
            None => None,
        }
    }
}

#[via_fn]
proof fn parse_lines_decreases(s: Seq<u8>, acc: Seq<u64>) {
    lemma_find_nl(s, 0);
}

/// The all-zero table.
pub open spec fn zero_table() -> Seq<u64> {
    Seq::new(256, |i: int| 0u64)
}

/// The parse of a serialized header at the front of `s`: the table and
/// the header's length in bytes, or nothing where it is malformed.
pub open spec fn spec_parse_header(s: Seq<u8>) -> Option<(Seq<u64>, int)> {
    parse_lines(s, zero_table())
}

/// Push the decimal digits of `n` onto `out`, most significant first.
pub(crate) fn push_dec(out: &mut Vec<u8>, n: u64)
    ensures
        final(out)@ == old(out)@ + dec_digits(n as nat),
    decreases n,
{
    if n < 10 {
        out.push(0x30 + n as u8);
        proof {
            assert(old(out)@ + dec_digits(n as nat) =~= old(out)@.push((0x30 + n as nat) as u8));
        }
    } else {
        proof {
            lemma_div_is_strictly_smaller(n as int, 10);
        }
        push_dec(out, n / 10);
        out.push(0x30 + (n % 10) as u8);
        proof {
            assert(old(out)@ + dec_digits(n as nat) =~= (old(out)@ + dec_digits((n as nat) / 10)).push(
                (0x30 + (n as nat) % 10) as u8,
            ));
        }
    }
}

/// Push the escaped form of byte value `b` onto `out`.
fn push_escaped(out: &mut Vec<u8>, b: u8)
    ensures
        final(out)@ == old(out)@ + escape_byte(b),
{
    if 0x20 <= b && b <= 0x7e && b != 0x3a && b != 0x5c {
        out.push(b);
        proof {
            assert(old(out)@ + escape_byte(b) =~= old(out)@.push(b));
        }
    } else {
        out.push(0x5c);
        out.push(0x78);
        out.push(hex_digit_exec(b / 16));
        out.push(hex_digit_exec(b % 16));
        proof {
            assert(old(out)@ + escape_byte(b) =~= old(out)@.push(0x5c).push(0x78).push(
                hex_digit((b as nat) / 16),
            ).push(hex_digit((b as nat) % 16)));
        }
    }
}

/// The uppercase hex digit of a value below 16.
fn hex_digit_exec(n: u8) -> (r: u8)
    requires
        n < 16,
    ensures
        r == hex_digit(n as nat),
{
    if n < 10 {
        0x30 + n
    } else {
        0x41 + (n - 10)
    }
}

/// Serialize a frequency table: one line `<escaped-byte>:<count>` per
/// present byte value in ascending byte order, then the sentinel line
/// `---`.
pub fn write_header(table: &FrequencyTable) -> (out: Vec<u8>)
    requires
        table.wf(),
    ensures
        out@ == spec_header(table@),
{
    let mut out: Vec<u8> = Vec::new();
    let mut b: usize = 0;
    proof {
        assert(Seq::<u8>::empty() + header_lines_from(table@, 0) =~= header_lines_from(table@, 0));
    }
    while b < 256
        invariant
            table.wf(),
            b <= 256,
            header_lines_from(table@, 0) =~= out@ + header_lines_from(table@, b as int),
        decreases 256 - b,
    {
        let ghost pre = out@;
        let c = table.get(b as u8);
        if c > 0 {
            push_escaped(&mut out, b as u8);
            out.push(0x3a);
            push_dec(&mut out, c);
            out.push(0x0a);
            proof {
                assert(out@ =~= pre + header_line(b as u8, c));
            }
        }
        proof {
            assert(header_lines_from(table@, b as int) == (if table@[b as int] > 0 {
                header_line(b as u8, table@[b as int])
            } else {
                Seq::<u8>::empty()
            }) + header_lines_from(table@, b + 1));
            assert(header_lines_from(table@, 0) =~= out@ + header_lines_from(table@, b + 1));
        }
        b += 1;
    }
    proof {
        assert(header_lines_from(table@, 256) =~= Seq::<u8>::empty());
        assert(out@ =~= header_lines_from(table@, 0));
    }
    out.push(0x2d);
    out.push(0x2d);
    out.push(0x2d);
    out.push(0x0a);
    proof {
        assert(out@ =~= spec_header(table@));
    }
    out
}

/// Index of the first newline of `data` at or after `from`, or the
/// length where none remains.
fn find_newline(data: &[u8], from: usize) -> (k: usize)
    requires
        from <= data@.len(),
    ensures
        k == find_nl(data@, from as int),
        from <= k <= data@.len(),
{
    let mut i = from;
    while i < data.len()
        invariant
            from <= i <= data@.len(),
            find_nl(data@, from as int) == find_nl(data@, i as int),
        decreases data@.len() - i,
    {
        if data[i] == 0x0a {
            return i;
        }
        i += 1;
    }
    i
}

/// Deserialize a frequency table from the front of `data`: read lines
/// until the sentinel, split each on the first delimiter, unescape the
/// byte value and parse the count.  Entries may come in any order; a
/// repeated byte value keeps its last entry.  Returns the table and the
/// number of header bytes consumed, or a `FormatError` where a line is
/// malformed or the sentinel is missing.
pub fn read_header(data: &[u8]) -> (r: Result<(FrequencyTable, usize), FormatError>)
    ensures
        match r {
            Ok((t, used)) => t.wf() && used <= data@.len() && spec_parse_header(data@) == Some(
                (t@, used as int),
            ),
            Err(_) => spec_parse_header(data@) is None,
        },
{
    let mut table = FrequencyTable::new();
    let mut pos: usize = 0;
    proof {
        assert(table@ =~= zero_table());
        assert(data@.skip(0) =~= data@);
    }
    loop
        invariant
            table.wf(),
            pos <= data@.len(),
            spec_parse_header(data@) == (match parse_lines(data@.skip(pos as int), table@) {
                Some((t, used)) => Some((t, pos + used)),
                None => None::<(Seq<u64>, int)>,
            }),
        decreases data@.len() - pos,
    {
        let ghost suffix = data@.skip(pos as int);
        let k = find_newline(data, pos);
        proof {
            lemma_find_nl_shift(data@, pos as int, 0);
            assert(find_nl(suffix, 0) == k - pos);
            lemma_find_nl(data@, pos as int);
            assert(suffix.take(k - pos) =~= data@.subrange(pos as int, k as int));
        }
        if k == data.len() {
            proof {
                assert(find_nl(suffix, 0) >= suffix.len());
                assert(parse_lines(suffix, table@) is None);
            }
            return Err(FormatError);
        }
        // The line's bytes, newline excluded.
        let line_start = pos;
        let line_len = k - pos;
        let ghost line = suffix.take(line_len as int);
        if line_len == 3 && data[line_start] == 0x2d && data[line_start + 1] == 0x2d && data[
            line_start + 2] == 0x2d {
            proof {
                assert(line =~= seq![0x2du8, 0x2du8, 0x2du8]);
                assert(parse_lines(suffix, table@) == Some::<(Seq<u64>, int)>(
                    (table@, line_len + 1),
                ));
            }
            return Ok((table, k + 1));
        }
        proof {
            if line =~= seq![0x2du8, 0x2du8, 0x2du8] {
                assert(line.len() == 3);
                assert(data@[line_start as int] == line[0]);
                assert(data@[line_start + 1] == line[1]);
                assert(data@[line_start + 2] == line[2]);
                assert(false);
            }
        }
        match parse_line_entry(data, line_start, k) {
            Some((b, c)) => {
                proof {
                    assert(parse_entry(line) == Some::<(u8, u64)>((b, c)));
                    assert(data@.skip(k + 1) =~= suffix.skip(line_len + 1));
                }
                table.set(b, c);
                pos = k + 1;
            },
            None => {
                proof {
                    assert(parse_entry(line) is None);
                }
                return Err(FormatError);
            },
        }
    }
}

/// First newline position is indifferent to dropping a prefix.
proof fn lemma_find_nl_shift(s: Seq<u8>, pos: int, i: int)
    requires
        0 <= pos,
        0 <= i,
        pos + i <= s.len(),
    ensures
        find_nl(s, pos + i) == pos + find_nl(s.skip(pos), i),
    decreases s.len() - pos - i,
{
    if pos + i < s.len() {
        assert(s.skip(pos)[i] == s[pos + i]);
        if s[pos + i] != nl() {
            lemma_find_nl_shift(s, pos, i + 1);
        }
    }
}

/// Parse one header line of `data`, running from `start` up to the
/// newline at `end`, into its byte value and count.
fn parse_line_entry(data: &[u8], start: usize, end: usize) -> (r: Option<(u8, u64)>)
    requires
        start <= end <= data@.len(),
    ensures
        r == parse_entry(data@.subrange(start as int, end as int)),
{
    let ghost line = data@.subrange(start as int, end as int);
    let len = end - start;
    if len >= 2 && 0x20 <= data[start] && data[start] <= 0x7e && data[start] != 0x3a && data[start]
        != 0x5c && data[start + 1] == 0x3a {
        let b = data[start];
        proof {
            assert(line[0] == b && line[1] == colon());
        }
        match parse_digits(data, start + 2, end) {
            Some(c) => {
                proof {
                    assert(line.skip(2) =~= data@.subrange(start + 2, end as int));
                }
                Some((b, c))
            },
            None => {
                proof {
                    assert(line.skip(2) =~= data@.subrange(start + 2, end as int));
                }
                None
            },
        }
    } else if len >= 5 && data[start] == 0x5c && data[start + 1] == 0x78 && is_hex_exec(
        data[start + 2],
    ) && is_hex_exec(data[start + 3]) && data[start + 4] == 0x3a {
        let hi = hex_val_exec(data[start + 2]);
        let lo = hex_val_exec(data[start + 3]);
        let b = hi * 16 + lo;
        proof {
            assert(line[0] == backslash() && line[1] == 0x78 && line[4] == colon());
            assert(is_hex(line[2]) && is_hex(line[3]));
            assert(b as nat == hex_val(line[2]) * 16 + hex_val(line[3]));
        }
        match parse_digits(data, start + 5, end) {
            Some(c) => {
                proof {
                    assert(line.skip(5) =~= data@.subrange(start + 5, end as int));
                }
                Some((b, c))
            },
            None => {
                proof {
                    assert(line.skip(5) =~= data@.subrange(start + 5, end as int));
                }
                None
            },
        }
    } else {
        proof {
            if line.len() >= 2 && is_plain(line[0]) && line[1] == colon() {
                assert(false);
            }
            if line.len() >= 5 && line[0] == backslash() && line[1] == 0x78 && is_hex(line[2])
                && is_hex(line[3]) && line[4] == colon() {
                assert(false);
            }
        }
        None
    }
}

fn is_hex_exec(b: u8) -> (r: bool)
    ensures
        r == is_hex(b),
{
    (0x30 <= b && b <= 0x39) || (0x41 <= b && b <= 0x46)
}

fn hex_val_exec(b: u8) -> (r: u8)
    requires
        is_hex(b),
    ensures
        r as nat == hex_val(b),
        r < 16,
{
    if b <= 0x39 {
        b - 0x30
    } else {
        b - 0x41 + 10
    }
}

/// Parse the digits of `data` from `start` up to `end` as a count.
fn parse_digits(data: &[u8], start: usize, end: usize) -> (r: Option<u64>)
    requires
        start <= end <= data@.len(),
    ensures
        r == parse_count(data@.subrange(start as int, end as int)),
{
    let ghost digits = data@.subrange(start as int, end as int);
    if start == end {
        proof {
            assert(digits.len() == 0);
        }
        return None;
    }
    let mut acc: u64 = 0;
    let mut i = start;
    while i < end
        invariant
            start <= i <= end <= data@.len(),
            digits == data@.subrange(start as int, end as int),
            all_digits(digits.take(i - start)),
            acc == dec_val(digits.take(i - start)),
            dec_val(digits.take(i - start)) <= u64::MAX,
        decreases end - i,
    {
        let d = data[i];
        proof {
            assert(digits[i - start] == d);
            assert(digits.take(i - start + 1).drop_last() =~= digits.take(i - start));
            assert(digits.take(i - start + 1).last() == d);
        }
        if !(0x30 <= d && d <= 0x39) {
            proof {
                lemma_nondigit_fails(digits, i - start);
            }
            return None;
        }
        let dv = d - 0x30;
        if acc > (u64::MAX - dv as u64) / 10 {
            proof {
                assert(dec_val(digits.take(i - start + 1)) > u64::MAX) by {
                    lemma_fundamental_div_mod((u64::MAX - dv) as int, 10);
                }
                lemma_dec_val_grows(digits, i - start + 1);
            }
            return None;
        }
        proof {
            assert((acc * 10 + dv) <= u64::MAX) by {
                lemma_fundamental_div_mod((u64::MAX - dv) as int, 10);
            }
        }
        acc = acc * 10 + dv as u64;
        i += 1;
    }
    proof {
        assert(digits.take(end - start) =~= digits);
    }
    Some(acc)
}

/// One header line without its newline.
pub open spec fn line_content(b: u8, c: u64) -> Seq<u8> {
    escape_byte(b) + seq![colon()] + dec_digits(c as nat)
}

proof fn lemma_dec_digits_are_digits(n: nat)
    ensures
        dec_digits(n).len() >= 1,
        all_digits(dec_digits(n)),
    decreases n,
{
    if n >= 10 {
        lemma_div_is_strictly_smaller(n as int, 10);
        lemma_dec_digits_are_digits(n / 10);
        assert(dec_digits(n).drop_last() =~= dec_digits(n / 10));
        assert forall|i: int| 0 <= i < dec_digits(n).len() implies is_digit(
            #[trigger] dec_digits(n)[i],
        ) by {
            if i < dec_digits(n).len() - 1 {
                assert(dec_digits(n)[i] == dec_digits(n / 10)[i]);
            }
        }
    }
}

proof fn lemma_dec_val_of_digits(n: nat)
    ensures
        dec_val(dec_digits(n)) == n,
    decreases n,
{
    if n < 10 {
        assert(dec_digits(n) =~= seq![(0x30 + n) as u8]);
        assert(dec_digits(n).drop_last() =~= Seq::<u8>::empty());
        assert(dec_val(Seq::<u8>::empty()) == 0);
        assert(dec_digits(n).last() == (0x30 + n) as u8);
    } else {
        lemma_div_is_strictly_smaller(n as int, 10);
        lemma_dec_val_of_digits(n / 10);
        assert(dec_digits(n).drop_last() =~= dec_digits(n / 10));
        assert(dec_digits(n).last() == (0x30 + n % 10) as u8);
        lemma_fundamental_div_mod(n as int, 10);
        assert(dec_val(dec_digits(n)) == dec_val(dec_digits(n / 10)) * 10 + ((0x30 + n % 10) as u8
            - 0x30));
    }
}

/// A serialized count parses back to itself.
proof fn lemma_parse_count_of_digits(c: u64)
    ensures
        parse_count(dec_digits(c as nat)) == Some(c),
{
    lemma_dec_digits_are_digits(c as nat);
    lemma_dec_val_of_digits(c as nat);
}

proof fn lemma_hex_digit(n: nat)
    requires
        n < 16,
    ensures
        is_hex(hex_digit(n)),
        hex_val(hex_digit(n)) == n,
        hex_digit(n) != nl(),
{
}

/// No byte of a line's content is a newline.
proof fn lemma_line_content_no_nl(b: u8, c: u64)
    ensures
        forall|i: int| 0 <= i < line_content(b, c).len() ==> #[trigger] line_content(b, c)[i]
            != nl(),
{
    let content = line_content(b, c);
    let esc = escape_byte(b);
    lemma_dec_digits_are_digits(c as nat);
    if !is_plain(b) {
        lemma_hex_digit((b as nat) / 16);
        lemma_hex_digit((b as nat) % 16);
    }
    assert forall|i: int| 0 <= i < content.len() implies #[trigger] content[i] != nl() by {
        if i < esc.len() {
            assert(content[i] == esc[i]);
        } else if i == esc.len() {
            assert(content[i] == colon());
        } else {
            assert(content[i] == dec_digits(c as nat)[i - esc.len() - 1]);
            assert(is_digit(dec_digits(c as nat)[i - esc.len() - 1]));
        }
    }
}

/// A serialized entry line parses back to its byte value and count.
proof fn lemma_parse_entry_of_line(b: u8, c: u64)
    ensures
        parse_entry(line_content(b, c)) == Some((b, c)),
        !(line_content(b, c) == seq![0x2du8, 0x2du8, 0x2du8]),
{
    let content = line_content(b, c);
    lemma_parse_count_of_digits(c);
    if is_plain(b) {
        assert(content[0] == b);
        assert(content[1] == colon());
        assert(content.skip(2) =~= dec_digits(c as nat));
        if content == seq![0x2du8, 0x2du8, 0x2du8] {
            assert(content[1] == 0x2d);
            assert(false);
        }
    } else {
        lemma_hex_digit((b as nat) / 16);
        lemma_hex_digit((b as nat) % 16);
        assert(content[0] == backslash());
        assert(content[1] == 0x78);
        assert(content[2] == hex_digit((b as nat) / 16));
        assert(content[3] == hex_digit((b as nat) % 16));
        assert(content[4] == colon());
        assert(content.skip(5) =~= dec_digits(c as nat));
        lemma_fundamental_div_mod(b as int, 16);
        assert(hex_val(content[2]) * 16 + hex_val(content[3]) == b);
        assert(!is_plain(content[0]));
        if content == seq![0x2du8, 0x2du8, 0x2du8] {
            assert(content[0] == 0x2d);
            assert(false);
        }
    }
}

/// `acc` with the entries of `t` for byte values from `n` up laid over
/// it.
pub open spec fn merge_from(acc: Seq<u64>, t: Seq<u64>, n: int) -> Seq<u64> {
    Seq::new(256, |i: int| if i >= n && t[i] > 0 {
        t[i]
    } else {
        acc[i]
    })
}

/// Parsing the serialized entries for byte values from `n` up, then the
/// sentinel, lays those entries over the accumulator and consumes
/// exactly the serialized bytes, whatever follows them.
#[verifier::rlimit(50)]
proof fn lemma_parse_round(t: Seq<u64>, n: int, acc: Seq<u64>, rest: Seq<u8>)
    requires
        table_wf(t),
        0 <= n <= 256,
        acc.len() == 256,
    ensures
        parse_lines(header_lines_from(t, n) + sentinel() + rest, acc) == Some(
            (merge_from(acc, t, n), header_lines_from(t, n).len() + 4int),
        ),
    decreases 256 - n,
{
    let s = header_lines_from(t, n) + sentinel() + rest;
    if n == 256 {
        assert(header_lines_from(t, n) =~= Seq::<u8>::empty());
        assert(s =~= sentinel() + rest);
        assert(s[0] == 0x2d && s[1] == 0x2d && s[2] == 0x2d && s[3] == nl());
        lemma_find_nl_at(s, 0, 3);
        assert(s.take(3) =~= seq![0x2du8, 0x2du8, 0x2du8]);
        assert(merge_from(acc, t, n) =~= acc);
    } else if t[n] == 0 {
        assert(header_lines_from(t, n) =~= header_lines_from(t, n + 1));
        assert(s =~= header_lines_from(t, n + 1) + sentinel() + rest);
        lemma_parse_round(t, n + 1, acc, rest);
        assert(merge_from(acc, t, n) =~= merge_from(acc, t, n + 1));
    } else {
        let b = n as u8;
        let c = t[n];
        let content = line_content(b, c);
        let tail = header_lines_from(t, n + 1) + sentinel() + rest;
        assert(header_line(b, c) =~= content + seq![nl()]);
        assert(header_lines_from(t, n) =~= header_line(b, c) + header_lines_from(t, n + 1));
        assert(s =~= content + (seq![nl()] + tail));
        let k = content.len() as int;
        lemma_line_content_no_nl(b, c);
        assert forall|i: int| 0 <= i < k implies s[i] != nl() by {
            assert(s[i] == content[i]);
        }
        assert(s[k] == nl());
        lemma_find_nl_at(s, 0, k);
        assert(s.take(k) =~= content);
        lemma_parse_entry_of_line(b, c);
        assert(parse_entry(s.take(k)) == Some((b, c)));
        assert(!(s.take(k) == seq![0x2du8, 0x2du8, 0x2du8]));
        assert(s.skip(k + 1) =~= tail);
        lemma_parse_round(t, n + 1, acc.update(n, c), rest);
        assert(merge_from(acc.update(n, c), t, n + 1) =~= merge_from(acc, t, n));
        assert(header_lines_from(t, n).len() == k + 1 + header_lines_from(t, n + 1).len());
    }
}

/// Header round trip: deserializing a serialized table reproduces the
/// table exactly — edge-case byte values, the delimiter and the line
/// terminator included — and consumes exactly the header's bytes,
/// whatever payload follows them.
pub proof fn lemma_header_round_trip(t: Seq<u64>, rest: Seq<u8>)
    requires
        table_wf(t),
    ensures
        spec_parse_header(spec_header(t) + rest) == Some((t, spec_header(t).len() as int)),
{
    lemma_parse_round(t, 0, zero_table(), rest);
    assert(header_lines_from(t, 0) + sentinel() + rest =~= spec_header(t) + rest);
    assert(merge_from(zero_table(), t, 0) =~= t);
    assert(spec_header(t).len() == header_lines_from(t, 0).len() + 4);
}

/// A digit string with a non-digit at `j` parses to nothing.
proof fn lemma_nondigit_fails(s: Seq<u8>, j: int)
    requires
        0 <= j < s.len(),
        !is_digit(s[j]),
    ensures
        parse_count(s) is None,
{
}

/// The value of a longer all-digit prefix is no smaller, so a prefix
/// overflow is an overflow of the whole.
proof fn lemma_dec_val_grows(s: Seq<u8>, j: int)
    requires
        0 <= j <= s.len(),
        dec_val(s.take(j)) > u64::MAX,
    ensures
        parse_count(s) is None,
    decreases s.len() - j,
{
    if j < s.len() {
        if !is_digit(s[j]) {
            lemma_nondigit_fails(s, j);
        } else {
            assert(s.take(j + 1).drop_last() =~= s.take(j));
            assert(dec_val(s.take(j + 1)) == dec_val(s.take(j)) * 10 + (s[j] - 0x30));
            lemma_dec_val_grows(s, j + 1);
        }
    } else {
        assert(s.take(j) =~= s);
    }
}

} // verus!
