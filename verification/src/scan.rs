//! Parsers for scan target lists: comma-separated host lists with a
//! numeric wildcard expansion, and comma-separated port lists with
//! colon-separated ranges.  Hosts and ports arrive as plain byte
//! strings and leave as byte strings and port numbers.

use vstd::prelude::*;
use crate::header::{all_digits, dec_digits, dec_val, is_digit};

verus! {

/// Index of the first `sep` of `s` at or after `pos`, or `s.len()`
/// where none remains.
pub open spec fn find_byte(s: Seq<u8>, sep: u8, pos: int) -> int
    decreases s.len() - pos,
        when 0 <= pos <= s.len()
{
    if pos >= s.len() {
        s.len() as int
    } else if s[pos] == sep {
        pos
    } else {
        find_byte(s, sep, pos + 1)
    }
}

pub proof fn lemma_find_byte(s: Seq<u8>, sep: u8, pos: int)
    requires
        0 <= pos <= s.len(),
    ensures
        pos <= find_byte(s, sep, pos) <= s.len(),
        find_byte(s, sep, pos) < s.len() ==> s[find_byte(s, sep, pos)] == sep,
        forall|i: int| pos <= i < find_byte(s, sep, pos) ==> s[i] != sep,
    decreases s.len() - pos,
{
    if pos < s.len() && s[pos] != sep {
        lemma_find_byte(s, sep, pos + 1);
    }
}

proof fn lemma_find_byte_shift(s: Seq<u8>, sep: u8, pos: int, i: int)
    requires
        0 <= pos,
        0 <= i,
        pos + i <= s.len(),
    ensures
        find_byte(s, sep, pos + i) == pos + find_byte(s.skip(pos), sep, i),
    decreases s.len() - pos - i,
{
    if pos + i < s.len() {
        assert(s.skip(pos)[i] == s[pos + i]);
        if s[pos + i] != sep {
            lemma_find_byte_shift(s, sep, pos, i + 1);
        }
    }
}

/// The fields of `s` split on `sep`: an empty string yields one empty
/// field, and every separator opens a further field.
pub open spec fn split_on(s: Seq<u8>, sep: u8) -> Seq<Seq<u8>>
    decreases s.len(),
        via split_on_decreases
{
    let k = find_byte(s, sep, 0);
    if k >= s.len() {
        seq![s]
    } else {
        seq![s.take(k)] + split_on(s.skip(k + 1), sep)
    }
}

#[via_fn]
proof fn split_on_decreases(s: Seq<u8>, sep: u8) {
    lemma_find_byte(s, sep, 0);
}

/// Whether `s` holds the byte `b`.
pub open spec fn contains_byte(s: Seq<u8>, b: u8) -> bool {
    exists|i: int| 0 <= i < s.len() && s[i] == b
}

/// A string without its separator splits to itself alone.
pub proof fn lemma_split_whole(s: Seq<u8>, sep: u8)
    requires
        !contains_byte(s, sep),
    ensures
        split_on(s, sep) == seq![s],
{
    lemma_find_byte(s, sep, 0);
    if find_byte(s, sep, 0) < s.len() {
        assert(s[find_byte(s, sep, 0)] == sep);
    }
}

/// A string with its separator splits to at least two fields.
pub proof fn lemma_split_nonempty(s: Seq<u8>, sep: u8)
    ensures
        split_on(s, sep).len() >= 1,
{
    lemma_find_byte(s, sep, 0);
}

pub proof fn lemma_split_contains(s: Seq<u8>, sep: u8)
    requires
        contains_byte(s, sep),
    ensures
        split_on(s, sep).len() >= 2,
{
    lemma_find_byte(s, sep, 0);
    let k = find_byte(s, sep, 0);
    if k >= s.len() {
        let i = choose|i: int| 0 <= i < s.len() && s[i] == sep;
        assert(false);
    } else {
        lemma_split_nonempty(s.skip(k + 1), sep);
    }
}

/// Whether `s` holds a wildcard byte `*`.
pub open spec fn has_wildcard(s: Seq<u8>) -> bool {
    contains_byte(s, 0x2a)
}

/// `s` with every wildcard byte removed.
pub open spec fn remove_stars(s: Seq<u8>) -> Seq<u8>
    decreases s.len(),
{
    if s.len() == 0 {
        Seq::empty()
    } else {
        remove_stars(s.drop_last()) + (if s.last() == 0x2a {
            Seq::<u8>::empty()
        } else {
            seq![s.last()]
        })
    }
}

/// The decimal parse of a port number, as the standard integer parse
/// accepts it: an optional leading `+`, then one or more digits, the
/// value fitting the port type.
pub open spec fn parse_u16(s: Seq<u8>) -> Option<u16> {
    let digits = if s.len() >= 1 && s[0] == 0x2b {
        s.skip(1)
    } else {
        s
    };
    if digits.len() >= 1 && all_digits(digits) && dec_val(digits) <= u16::MAX {
        Some(dec_val(digits) as u16)
    } else {
        None
    }
}

/// The ports from `a` up to `b`, both inclusive; none where `a > b`.
pub open spec fn range_u16(a: u16, b: u16) -> Seq<u16> {
    if a > b {
        Seq::empty()
    } else {
        Seq::new((b - a + 1) as nat, |i: int| (a + i) as u16)
    }
}

/// The ports named by one comma-separated field: a single port, or a
/// `start:end` range; a malformed field names none.
pub open spec fn part_ports(p: Seq<u8>) -> Seq<u16> {
    if contains_byte(p, 0x3a) {
        let fs = split_on(p, 0x3a);
        if fs.len() == 2 {
            match (parse_u16(fs[0]), parse_u16(fs[1])) {
                (Some(a), Some(b)) => range_u16(a, b),
                _ => Seq::empty(),
            }
        } else {
            Seq::empty()
        }
    } else {
        match parse_u16(p) {
            Some(v) => seq![v],
            None => Seq::empty(),
        }
    }
}

/// The ports named by a list of fields, in order.
pub open spec fn ports_of(parts: Seq<Seq<u8>>) -> Seq<u16>
    decreases parts.len(),
{
    if parts.len() == 0 {
        Seq::empty()
    } else {
        part_ports(parts[0]) + ports_of(parts.drop_first())
    }
}

/// The ports named by a comma-separated port argument.
pub open spec fn spec_parse_ports(s: Seq<u8>) -> Seq<u16> {
    ports_of(split_on(s, 0x2c))
}

/// The host list a host argument names: its comma-separated fields, or,
/// where it holds a wildcard, the wildcard-stripped base with each
/// suffix 1 through 255 appended.
pub open spec fn spec_parse_hosts(s: Seq<u8>) -> Seq<Seq<u8>> {
    if has_wildcard(s) {
        wildcard_hosts(s)
    } else {
        split_on(s, 0x2c)
    }
}

/// The 255 hosts a wildcard pattern stands for.
pub open spec fn wildcard_hosts(s: Seq<u8>) -> Seq<Seq<u8>> {
    Seq::new(255, |i: int| remove_stars(s) + dec_digits((i + 1) as nat))
}

/// Whether the byte string holds the byte, by linear scan.
fn contains_byte_exec(s: &[u8], b: u8) -> (r: bool)
    ensures
        r == contains_byte(s@, b),
{
    let mut i: usize = 0;
    while i < s.len()
        invariant
            i <= s@.len(),
            forall|j: int| 0 <= j < i ==> s@[j] != b,
        decreases s@.len() - i,
    {
        if s[i] == b {
            return true;
        }
        i += 1;
    }
    false
}

/// Index of the first `sep` of `s` at or after `from`, or the length
/// where none remains.
fn find_byte_exec(s: &[u8], sep: u8, from: usize) -> (k: usize)
    requires
        from <= s@.len(),
    ensures
        k == find_byte(s@, sep, from as int),
        from <= k <= s@.len(),
{
    let mut i = from;
    while i < s.len()
        invariant
            from <= i <= s@.len(),
            find_byte(s@, sep, from as int) == find_byte(s@, sep, i as int),
        decreases s@.len() - i,
    {
        if s[i] == sep {
            return i;
        }
        i += 1;
    }
    i
}

/// Parse a host argument into the hosts it names: its comma-separated
/// fields as they stand, or, where it holds a `*`, the wildcard
/// expansion.
pub fn parse_hosts(hosts: &[u8]) -> (r: Vec<Vec<u8>>)
    ensures
        r@.len() == spec_parse_hosts(hosts@).len(),
        forall|i: int| 0 <= i < r@.len() ==> r@[i]@ == spec_parse_hosts(hosts@)[i],
{
    if contains_byte_exec(hosts, 0x2a) {
        expand_wildcard(hosts)
    } else {
        let mut r: Vec<Vec<u8>> = Vec::new();
        let mut pos: usize = 0;
        let ghost parts = split_on(hosts@, 0x2c);
        proof {
            assert(hosts@.skip(0) =~= hosts@);
        }
        loop
            invariant
                pos <= hosts@.len(),
                !has_wildcard(hosts@),
                spec_parse_hosts(hosts@) == parts,
                parts == split_on(hosts@, 0x2c),
                r@.len() <= parts.len(),
                split_on(hosts@.skip(pos as int), 0x2c) == parts.skip(r@.len() as int),
                forall|i: int| 0 <= i < r@.len() ==> r@[i]@ == parts[i],
            decreases hosts@.len() - pos,
        {
            let k = find_byte_exec(hosts, 0x2c, pos);
            proof {
                lemma_find_byte_shift(hosts@, 0x2c, pos as int, 0);
                lemma_find_byte(hosts@, 0x2c, pos as int);
            }
            let ghost suffix = hosts@.skip(pos as int);
            let field = vstd::slice::slice_subrange(hosts, pos, k);
            proof {
                assert(find_byte(suffix, 0x2c, 0) == k - pos);
                assert(suffix.take(k - pos) =~= field@);
                assert(parts.skip(r@.len() as int).len() >= 1);
                assert(split_on(suffix, 0x2c)[0] == (if k < hosts@.len() {
                    suffix.take(k - pos)
                } else {
                    suffix
                }));
                assert(parts.skip(r@.len() as int)[0] == parts[r@.len() as int]);
                assert(parts[r@.len() as int] == (if k < hosts@.len() {
                    suffix.take(k - pos)
                } else {
                    suffix
                }));
            }
            let owned = vstd::slice::slice_to_vec(field);
            if k == hosts.len() {
                proof {
                    assert(suffix =~= field@);
                    assert(split_on(suffix, 0x2c) =~= seq![suffix]);
                    assert(parts.skip(r@.len() as int).len() == 1);
                }
                r.push(owned);
                proof {
                    assert(r@.len() == parts.len());
                }
                return r;
            }
            r.push(owned);
            proof {
                assert(split_on(suffix, 0x2c) == seq![suffix.take(k - pos)] + split_on(
                    suffix.skip(k - pos + 1),
                    0x2c,
                ));
                assert(hosts@.skip(k + 1) =~= suffix.skip(k - pos + 1));
                assert(parts.skip(r@.len() - 1).drop_first() =~= parts.skip(r@.len() as int));
            }
            pos = k + 1;
        }
    }
}

/// Expand a wildcard host pattern: strip every `*` and append each
/// numeric suffix 1 through 255 in order.
pub fn expand_wildcard(host: &[u8]) -> (r: Vec<Vec<u8>>)
    ensures
        r@.len() == 255,
        forall|i: int| 0 <= i < 255 ==> r@[i]@ == wildcard_hosts(host@)[i],
{
    let mut base: Vec<u8> = Vec::new();
    let mut i: usize = 0;
    while i < host.len()
        invariant
            i <= host@.len(),
            base@ == remove_stars(host@.take(i as int)),
        decreases host@.len() - i,
    {
        let b = host[i];
        proof {
            assert(host@.take(i + 1).drop_last() =~= host@.take(i as int));
            assert(host@.take(i + 1).last() == host@[i as int]);
        }
        if b != 0x2a {
            base.push(b);
            proof {
                assert(base@ =~= remove_stars(host@.take(i as int)) + seq![b]);
            }
        } else {
            proof {
                assert(base@ =~= remove_stars(host@.take(i as int)) + Seq::<u8>::empty());
            }
        }
        i += 1;
    }
    proof {
        assert(host@.take(host@.len() as int) =~= host@);
    }
    let mut r: Vec<Vec<u8>> = Vec::new();
    let mut n: usize = 1;
    while n <= 255
        invariant
            1 <= n <= 256,
            base@ == remove_stars(host@),
            r@.len() == n - 1,
            forall|j: int| 0 <= j < n - 1 ==> r@[j]@ == wildcard_hosts(host@)[j],
        decreases 256 - n,
    {
        let mut h = base.clone();
        proof {
            assert(h@ =~= base@);
        }
        crate::header::push_dec(&mut h, n as u64);
        r.push(h);
        n += 1;
    }
    r
}

/// Parse a port argument into the ports it names: comma-separated
/// fields, each a single port or a `start:end` range; malformed fields
/// name no ports.
pub fn parse_ports(port_arg: &[u8]) -> (r: Vec<u16>)
    ensures
        r@ == spec_parse_ports(port_arg@),
{
    let mut r: Vec<u16> = Vec::new();
    let mut pos: usize = 0;
    proof {
        assert(port_arg@.skip(0) =~= port_arg@);
        assert(Seq::<u16>::empty() + ports_of(split_on(port_arg@, 0x2c)) =~= ports_of(
            split_on(port_arg@, 0x2c),
        ));
    }
    loop
        invariant
            pos <= port_arg@.len(),
            spec_parse_ports(port_arg@) == r@ + ports_of(split_on(port_arg@.skip(pos as int), 0x2c)),
        decreases port_arg@.len() - pos,
    {
        let k = find_byte_exec(port_arg, 0x2c, pos);
        proof {
            lemma_find_byte_shift(port_arg@, 0x2c, pos as int, 0);
            lemma_find_byte(port_arg@, 0x2c, pos as int);
        }
        let ghost suffix = port_arg@.skip(pos as int);
        let ghost parts = split_on(suffix, 0x2c);
        let ghost field = if (k as int) < port_arg@.len() {
            suffix.take(k - pos)
        } else {
            suffix
        };
        proof {
            if (k as int) < port_arg@.len() {
                assert(parts == seq![field] + split_on(suffix.skip(k - pos + 1), 0x2c));
                assert(parts[0] == field);
                assert(parts.drop_first() =~= split_on(suffix.skip(k - pos + 1), 0x2c));
            } else {
                assert(parts =~= seq![field]);
                assert(parts[0] == field);
                assert(parts.drop_first() =~= Seq::<Seq<u8>>::empty());
            }
            assert(suffix.take(k - pos) =~= port_arg@.subrange(pos as int, k as int));
            if k as int == port_arg@.len() {
                assert(suffix =~= port_arg@.subrange(pos as int, k as int));
            }
        }
        let ghost pre = r@;
        push_field_ports(&mut r, port_arg, pos, k);
        proof {
            assert(r@ =~= pre + part_ports(field));
            assert(ports_of(parts) == part_ports(field) + ports_of(parts.drop_first()));
            assert(pre + ports_of(parts) =~= r@ + ports_of(parts.drop_first()));
        }
        if k == port_arg.len() {
            proof {
                assert(ports_of(Seq::<Seq<u8>>::empty()) =~= Seq::<u16>::empty());
                assert(r@ + Seq::<u16>::empty() =~= r@);
            }
            return r;
        }
        proof {
            assert(port_arg@.skip(k + 1) =~= suffix.skip(k - pos + 1));
        }
        pos = k + 1;
    }
}

/// Append the ports of the field running from `start` up to `end`.
fn push_field_ports(r: &mut Vec<u16>, data: &[u8], start: usize, end: usize)
    requires
        start <= end <= data@.len(),
    ensures
        final(r)@ == old(r)@ + part_ports(data@.subrange(start as int, end as int)),
{
    let ghost p = data@.subrange(start as int, end as int);
    let k = find_byte_exec(data, 0x3a, start);
    if k >= end {
        // No range delimiter: a single port.
        proof {
            lemma_find_byte(data@, 0x3a, start as int);
            assert forall|i: int| 0 <= i < p.len() implies p[i] != 0x3a by {
                assert(data@[start + i] != 0x3a);
            }
            assert(!contains_byte(p, 0x3a));
        }
        match parse_u16_exec(data, start, end) {
            Some(v) => {
                r.push(v);
                proof {
                    assert(old(r)@ + part_ports(p) =~= old(r)@.push(v));
                }
            },
            None => {
                proof {
                    assert(old(r)@ + part_ports(p) =~= old(r)@);
                }
            },
        }
        return ;
    }
    // A range delimiter: valid only as exactly two fields.
    proof {
        lemma_find_byte(data@, 0x3a, start as int);
        assert(p[k - start] == 0x3a);
        assert(contains_byte(p, 0x3a));
        lemma_find_byte_shift(data@, 0x3a, start as int, 0);
        assert(find_byte(p, 0x3a, 0) == find_byte(data@.skip(start as int), 0x3a, 0)) by {
            lemma_find_prefix(data@.skip(start as int), p, 0x3a, 0);
        }
        assert(split_on(p, 0x3a) == seq![p.take(k - start)] + split_on(p.skip(k - start + 1), 0x3a));
    }
    let k2 = find_byte_exec(data, 0x3a, k + 1);
    if k2 < end {
        // More than one delimiter: not a range.
        proof {
            lemma_find_byte(data@, 0x3a, k + 1 as int);
            let tail = p.skip(k - start + 1);
            assert(tail[k2 - k - 1] == data@[k2 as int]);
            assert(contains_byte(tail, 0x3a));
            lemma_split_contains(tail, 0x3a);
            assert(split_on(p, 0x3a).len() >= 3);
            assert(old(r)@ + part_ports(p) =~= old(r)@);
        }
        return ;
    }
    proof {
        lemma_find_byte(data@, 0x3a, k + 1 as int);
        let tail = p.skip(k - start + 1);
        assert forall|i: int| 0 <= i < tail.len() implies tail[i] != 0x3a by {
            assert(tail[i] == data@[k + 1 + i]);
        }
        assert(!contains_byte(tail, 0x3a));
        lemma_split_whole(tail, 0x3a);
        assert(split_on(p, 0x3a).len() == 2);
        assert(split_on(p, 0x3a)[0] == p.take(k - start));
        assert(split_on(p, 0x3a)[1] == tail);
        assert(p.take(k - start) =~= data@.subrange(start as int, k as int));
        assert(tail =~= data@.subrange(k + 1, end as int));
    }
    let a = match parse_u16_exec(data, start, k) {
        Some(a) => a,
        None => {
            proof {
                assert(old(r)@ + part_ports(p) =~= old(r)@);
            }
            return ;
        },
    };
    let b = match parse_u16_exec(data, k + 1, end) {
        Some(b) => b,
        None => {
            proof {
                assert(old(r)@ + part_ports(p) =~= old(r)@);
            }
            return ;
        },
    };
    let ghost pre = r@;
    if a > b {
        proof {
            assert(pre + part_ports(p) =~= pre);
        }
        return ;
    }
    let mut v: u32 = a as u32;
    while v <= b as u32
        invariant
            a <= b,
            a as u32 <= v <= b as u32 + 1,
            r@.len() == pre.len() + (v - a),
            forall|j: int| 0 <= j < pre.len() ==> r@[j] == pre[j],
            forall|j: int| 0 <= j < v - a ==> #[trigger] r@[pre.len() + j] == (a + j) as u16,
        decreases b as u32 + 1 - v,
    {
        r.push(v as u16);
        v += 1;
    }
    proof {
        assert forall|idx: int| 0 <= idx < r@.len() implies r@[idx] == (pre + range_u16(a, b))[idx]
            by {
            if idx >= pre.len() {
                assert(r@[pre.len() + (idx - pre.len())] == (a + (idx - pre.len())) as u16);
            }
        }
        assert(r@ =~= pre + range_u16(a, b));
    }
}

/// A prefix that runs at least to the first hit finds it at the same
/// place.
proof fn lemma_find_prefix(s: Seq<u8>, p: Seq<u8>, sep: u8, pos: int)
    requires
        0 <= pos <= p.len() <= s.len(),
        forall|i: int| 0 <= i < p.len() ==> p[i] == s[i],
        exists|i: int| pos <= i < p.len() && p[i] == sep,
    ensures
        find_byte(p, sep, pos) == find_byte(s, sep, pos),
    decreases p.len() - pos,
{
    let i = choose|i: int| pos <= i < p.len() && p[i] == sep;
    if p[pos] != sep {
        assert(pos != i);
        assert(exists|j: int| pos + 1 <= j < p.len() && p[j] == sep) by {
            assert(pos + 1 <= i < p.len() && p[i] == sep);
        }
        lemma_find_prefix(s, p, sep, pos + 1);
    }
}

/// Parse the bytes from `start` up to `end` as a port number.
fn parse_u16_exec(data: &[u8], start: usize, end: usize) -> (r: Option<u16>)
    requires
        start <= end <= data@.len(),
    ensures
        r == parse_u16(data@.subrange(start as int, end as int)),
{
    let ghost s = data@.subrange(start as int, end as int);
    let dstart = if start < end && data[start] == 0x2b {
        start + 1
    } else {
        start
    };
    let ghost digits = data@.subrange(dstart as int, end as int);
    proof {
        if start < end && s[0] == 0x2b {
            assert(digits =~= s.skip(1));
        } else {
            assert(digits =~= s);
        }
    }
    if dstart == end {
        return None;
    }
    let mut acc: u32 = 0;
    let mut i = dstart;
    while i < end
        invariant
            dstart <= i <= end <= data@.len(),
            s == data@.subrange(start as int, end as int),
            digits == data@.subrange(dstart as int, end as int),
            digits == (if s.len() >= 1 && s[0] == 0x2b {
                s.skip(1)
            } else {
                s
            }),
            digits.len() >= 1,
            all_digits(digits.take(i - dstart)),
            acc == dec_val(digits.take(i - dstart)),
            dec_val(digits.take(i - dstart)) <= u16::MAX,
        decreases end - i,
    {
        let d = data[i];
        proof {
            assert(digits[i - dstart] == d);
            assert(digits.take(i - dstart + 1).drop_last() =~= digits.take(i - dstart));
            assert(digits.take(i - dstart + 1).last() == d);
        }
        if !(0x30 <= d && d <= 0x39) {
            proof {
                assert(!is_digit(digits[i - dstart]));
                assert(!all_digits(digits));
            }
            return None;
        }
        acc = acc * 10 + (d - 0x30) as u32;
        if acc > u16::MAX as u32 {
            proof {
                lemma_dec_val_grows_u16(digits, i - dstart + 1);
            }
            return None;
        }
        i += 1;
    }
    proof {
        assert(digits.take(end - dstart) =~= digits);
    }
    Some(acc as u16)
}

/// A longer all-digit prefix's value only grows, so a prefix past the
/// port range puts the whole string past it.
proof fn lemma_dec_val_grows_u16(s: Seq<u8>, j: int)
    requires
        0 <= j <= s.len(),
        dec_val(s.take(j)) > u16::MAX,
    ensures
        !(all_digits(s) && dec_val(s) <= u16::MAX),
    decreases s.len() - j,
{
    if j < s.len() {
        if !is_digit(s[j]) {
        } else {
            assert(s.take(j + 1).drop_last() =~= s.take(j));
            assert(dec_val(s.take(j + 1)) == dec_val(s.take(j)) * 10 + (s[j] - 0x30));
            lemma_dec_val_grows_u16(s, j + 1);
        }
    } else {
        assert(s.take(j) =~= s);
    }
}

} // verus!
