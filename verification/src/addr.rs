//! Endpoints and the textual `ip:port` grammar.
//!
//! An endpoint is an IP address — four octets (IPv4) or eight 16-bit groups
//! with a scope id (IPv6) — and a port. The IPv4 form `a.b.c.d:port` is
//! stated declaratively by [`is_v4_endpoint_text`]: four dot-separated
//! decimal octets (no leading zeros, each at most 255), a colon, and a
//! decimal port of value at most 65535. The IPv6 form
//! `[groups]:port` — hex groups separated by single colons, at most one
//! `::` eliding one or more zero groups, an optional trailing IPv4 pair of
//! groups, an optional `%scope` — is read greedily and is therefore stated
//! by the deterministic readers around [`spec_v6_endpoint`]. Both forms
//! follow the usual socket-address parsers. [`parse_endpoint`] decides the
//! whole grammar exactly: it returns the denoted endpoint if and only if
//! the string is well-formed, and the grammar is proved unambiguous
//! ([`lemma_endpoint_text_unique`]).

use vstd::prelude::*;

verus! {

/// An IP address: four octets, or eight 16-bit groups and a scope id.
#[derive(Clone, Copy, PartialEq, Eq, Structural, Debug)]
pub enum HostAddr {
    V4 { o1: u8, o2: u8, o3: u8, o4: u8 },
    V6 { g0: u16, g1: u16, g2: u16, g3: u16, g4: u16, g5: u16, g6: u16, g7: u16, scope: u32 },
}

/// A network endpoint: an IP address and a port.
#[derive(Clone, Copy, PartialEq, Eq, Structural, Debug)]
pub struct Endpoint {
    pub host: HostAddr,
    pub port: u16,
}

// ---------------------------------------------------------------------------
// Decimal and hexadecimal digits
// ---------------------------------------------------------------------------

/// A decimal digit character.
pub open spec fn is_digit(c: char) -> bool {
    '0' <= c && c <= '9'
}

/// The numeric value of a decimal digit character.
pub open spec fn digit_val(c: char) -> int {
    c as int - '0' as int
}

/// Every character of `s` is a decimal digit.
pub open spec fn all_digits(s: Seq<char>) -> bool {
    forall|i: int| 0 <= i < s.len() ==> is_digit(#[trigger] s[i])
}

/// The value of `s` read as a decimal numeral (most significant digit first).
pub open spec fn dec_value(s: Seq<char>) -> int
    decreases s.len(),
{
    if s.len() == 0 {
        0
    } else {
        10 * dec_value(s.drop_last()) + digit_val(s.last())
    }
}

/// A hexadecimal digit character, either case.
pub open spec fn is_hex_digit(c: char) -> bool {
    ('0' <= c && c <= '9') || ('a' <= c && c <= 'f') || ('A' <= c && c <= 'F')
}

/// The numeric value of a hexadecimal digit character.
pub open spec fn hex_val(c: char) -> int {
    if '0' <= c && c <= '9' {
        c as int - '0' as int
    } else if 'a' <= c && c <= 'f' {
        10 + c as int - 'a' as int
    } else {
        10 + c as int - 'A' as int
    }
}

/// Every character of `s` is a hexadecimal digit.
pub open spec fn all_hex_digits(s: Seq<char>) -> bool {
    forall|i: int| 0 <= i < s.len() ==> is_hex_digit(#[trigger] s[i])
}

/// The value of `s` read as a hexadecimal numeral.
pub open spec fn hex_value(s: Seq<char>) -> int
    decreases s.len(),
{
    if s.len() == 0 {
        0
    } else {
        16 * hex_value(s.drop_last()) + hex_val(s.last())
    }
}

/// Sixteen to the power `n`.
pub open spec fn pow16(n: int) -> int
    decreases n,
{
    if n <= 0 {
        1
    } else {
        16 * pow16(n - 1)
    }
}

// ---------------------------------------------------------------------------
// The IPv4 grammar, stated declaratively
// ---------------------------------------------------------------------------

/// `s` is the canonical decimal text of the octet `v`: nonempty, digits
/// only, no leading zero, value at most 255.
pub open spec fn is_octet_text(s: Seq<char>, v: u8) -> bool {
    &&& s.len() >= 1
    &&& all_digits(s)
    &&& (s.len() > 1 ==> s[0] != '0')
    &&& dec_value(s) == v as int
}

/// `s` is a decimal text of the port `p`: nonempty, digits only.
/// Leading zeros are allowed, as the usual address parsers accept them.
pub open spec fn is_port_text(s: Seq<char>, p: u16) -> bool {
    &&& s.len() >= 1
    &&& all_digits(s)
    &&& dec_value(s) == p as int
}

/// No octet at all is denoted by `s`.
pub open spec fn no_octet_text(s: Seq<char>) -> bool {
    forall|v: u8| !is_octet_text(s, v)
}

/// No port at all is denoted by `s`.
pub open spec fn no_port_text(s: Seq<char>) -> bool {
    forall|p: u16| !is_port_text(s, p)
}

/// The four separator positions of `a.b.c.d:p`: three dots and one colon,
/// in that order, all inside `s`.
pub open spec fn sep_positions(s: Seq<char>, i1: int, i2: int, i3: int, i4: int) -> bool {
    &&& 0 <= i1 < i2 < i3 < i4 < s.len()
    &&& s[i1] == '.'
    &&& s[i2] == '.'
    &&& s[i3] == '.'
    &&& s[i4] == ':'
}

/// `s` splits at positions `i1 < i2 < i3 < i4` into the octet and port
/// texts of `ep`, an IPv4 endpoint.
pub open spec fn splits_as(s: Seq<char>, i1: int, i2: int, i3: int, i4: int, ep: Endpoint) -> bool {
    ep.host matches HostAddr::V4 { o1, o2, o3, o4 } && {
        &&& sep_positions(s, i1, i2, i3, i4)
        &&& is_octet_text(s.subrange(0, i1), o1)
        &&& is_octet_text(s.subrange(i1 + 1, i2), o2)
        &&& is_octet_text(s.subrange(i2 + 1, i3), o3)
        &&& is_octet_text(s.subrange(i3 + 1, i4), o4)
        &&& is_port_text(s.subrange(i4 + 1, s.len() as int), ep.port)
    }
}

/// `s` is a well-formed IPv4 `ip:port` text denoting the endpoint `ep`.
pub open spec fn is_v4_endpoint_text(s: Seq<char>, ep: Endpoint) -> bool {
    exists|i1: int, i2: int, i3: int, i4: int| splits_as(s, i1, i2, i3, i4, ep)
}

// ---------------------------------------------------------------------------
// The IPv6 grammar, stated by deterministic readers
//
// The bracketed form is read greedily, exactly as the usual parsers read
// it: groups from left to right, an embedded IPv4 quad taking the last two
// groups, `::` only where the head ends with fewer than eight groups. Each
// reader takes a position and returns what it read and the next position.
// ---------------------------------------------------------------------------

/// The first index at or after `i` that is not a decimal digit (or the
/// length of the string).
pub open spec fn dec_run_end(s: Seq<char>, i: int) -> int
    decreases s.len() - i,
{
    if i < s.len() && is_digit(s[i]) {
        dec_run_end(s, i + 1)
    } else {
        i
    }
}

/// The first index at or after `i` that is not a hexadecimal digit (or the
/// length of the string).
pub open spec fn hex_run_end(s: Seq<char>, i: int) -> int
    decreases s.len() - i,
{
    if i < s.len() && is_hex_digit(s[i]) {
        hex_run_end(s, i + 1)
    } else {
        i
    }
}

/// Read one decimal octet at `i`: one to three digits, no leading zero,
/// value at most 255.
pub open spec fn spec_read_octet(s: Seq<char>, i: int) -> Option<(u8, int)> {
    let j = dec_run_end(s, i);
    let t = s.subrange(i, j);
    if i < j && j - i <= 3 && (j - i > 1 ==> s[i] != '0') && 0 <= dec_value(t) <= 255 {
        Some((dec_value(t) as u8, j))
    } else {
        None
    }
}

/// Read a dotted IPv4 quad at `i`: four octets separated by dots.
pub open spec fn spec_read_ipv4(s: Seq<char>, i: int) -> Option<((u8, u8, u8, u8), int)> {
    match spec_read_octet(s, i) {
        None => None,
        Some((a1, p1)) => if p1 < s.len() && s[p1] == '.' {
            match spec_read_octet(s, p1 + 1) {
                None => None,
                Some((a2, p2)) => if p2 < s.len() && s[p2] == '.' {
                    match spec_read_octet(s, p2 + 1) {
                        None => None,
                        Some((a3, p3)) => if p3 < s.len() && s[p3] == '.' {
                            match spec_read_octet(s, p3 + 1) {
                                None => None,
                                Some((a4, p4)) => Some(((a1, a2, a3, a4), p4)),
                            }
                        } else {
                            None
                        },
                    }
                } else {
                    None
                },
            }
        } else {
            None
        },
    }
}

/// Read one hexadecimal group at `i`: one to four hex digits, leading
/// zeros allowed.
pub open spec fn spec_read_group(s: Seq<char>, i: int) -> Option<(u16, int)> {
    let j = hex_run_end(s, i);
    let t = s.subrange(i, j);
    if i < j && j - i <= 4 && 0 <= hex_value(t) < 0x10000 {
        Some((hex_value(t) as u16, j))
    } else {
        None
    }
}

/// The two groups an embedded IPv4 quad stands for.
pub open spec fn quad_groups(a1: u8, a2: u8, a3: u8, a4: u8) -> Seq<u16> {
    seq![((a1 as int) * 256 + (a2 as int)) as u16, ((a3 as int) * 256 + (a4 as int)) as u16]
}

/// Read up to `limit` colon-separated groups at `i`, greedily. `first`
/// says no separator precedes the first item. An embedded IPv4 quad may
/// stand where at least two groups remain and ends the run. Returns the
/// groups read, the next position, and whether the run ended with a quad.
pub open spec fn spec_read_groups(s: Seq<char>, i: int, limit: int, first: bool) -> (
    Seq<u16>,
    int,
    bool,
)
    decreases limit,
{
    if limit <= 0 {
        (Seq::<u16>::empty(), i, false)
    } else if !first && !(i < s.len() && s[i] == ':') {
        (Seq::<u16>::empty(), i, false)
    } else {
        let start = if first {
            i
        } else {
            i + 1
        };
        match (if limit >= 2 {
            spec_read_ipv4(s, start)
        } else {
            None
        }) {
            Some(((a1, a2, a3, a4), j)) => (quad_groups(a1, a2, a3, a4), j, true),
            None => match spec_read_group(s, start) {
                Some((g, j)) => {
                    let (rest, k, quad) = spec_read_groups(s, j, limit - 1, false);
                    (seq![g] + rest, k, quad)
                },
                None => (Seq::<u16>::empty(), i, false),
            },
        }
    }
}

/// `n` zero groups.
pub open spec fn zero_groups(n: int) -> Seq<u16> {
    Seq::new(n as nat, |k: int| 0u16)
}

/// Read a full IPv6 address at `i`: eight groups outright, or a head, a
/// `::` eliding at least one zero group, and a tail. A head that ended
/// with an embedded quad admits no `::` after it.
pub open spec fn spec_read_ipv6(s: Seq<char>, i: int) -> Option<(Seq<u16>, int)> {
    let (head, j, head_quad) = spec_read_groups(s, i, 8, true);
    if head.len() == 8 {
        Some((head, j))
    } else if head_quad {
        None
    } else if j + 1 < s.len() && s[j] == ':' && s[j + 1] == ':' {
        let (tail, k, _) = spec_read_groups(s, j + 2, 8 - head.len() - 1, true);
        Some((head + zero_groups(8 - head.len() as int - tail.len() as int) + tail, k))
    } else {
        None
    }
}

/// Finish a bracketed endpoint after the address and scope: `]`, `:`, and
/// a port running to the end of the string.
pub open spec fn spec_v6_finish(s: Seq<char>, gs: Seq<u16>, scope: u32, p: int) -> Option<
    Endpoint,
> {
    if p + 1 < s.len() && s[p] == ']' && s[p + 1] == ':' {
        let q = dec_run_end(s, p + 2);
        let t = s.subrange(p + 2, q);
        if q == s.len() && p + 2 < q && dec_value(t) <= 0xFFFF && gs.len() == 8 {
            Some(
                Endpoint {
                    host: HostAddr::V6 {
                        g0: gs[0],
                        g1: gs[1],
                        g2: gs[2],
                        g3: gs[3],
                        g4: gs[4],
                        g5: gs[5],
                        g6: gs[6],
                        g7: gs[7],
                        scope,
                    },
                    port: dec_value(t) as u16,
                },
            )
        } else {
            None
        }
    } else {
        None
    }
}

/// The whole bracketed IPv6 endpoint text: `[address]`, an optional
/// `%scope` (decimal, leading zeros allowed, fitting 32 bits), `:`, and
/// the port.
pub open spec fn spec_v6_endpoint(s: Seq<char>) -> Option<Endpoint> {
    if s.len() == 0 || s[0] != '[' {
        None
    } else {
        match spec_read_ipv6(s, 1) {
            None => None,
            Some((gs, j)) => if j < s.len() && s[j] == '%' {
                let e = dec_run_end(s, j + 1);
                if j + 1 < e && dec_value(s.subrange(j + 1, e)) <= 0xFFFF_FFFF {
                    spec_v6_finish(s, gs, dec_value(s.subrange(j + 1, e)) as u32, e)
                } else {
                    None
                }
            } else {
                spec_v6_finish(s, gs, 0, j)
            },
        }
    }
}

/// `s` is a well-formed endpoint text denoting `ep`, in either address
/// family.
pub open spec fn is_endpoint_text(s: Seq<char>, ep: Endpoint) -> bool {
    match ep.host {
        HostAddr::V4 { .. } => is_v4_endpoint_text(s, ep),
        HostAddr::V6 { .. } => spec_v6_endpoint(s) == Some(ep),
    }
}

// ---------------------------------------------------------------------------
// What a digit scan reports
// ---------------------------------------------------------------------------

/// What a decimal digit scan starting at `from` reports with result `j`:
/// everything from `from` up to `j` is a digit, and `j` is the end of the
/// string or a non-digit.
pub open spec fn scan_post(s: Seq<char>, from: int, j: int) -> bool {
    &&& from <= j <= s.len()
    &&& (forall|k: int| from <= k < j ==> is_digit(#[trigger] s[k]))
    &&& (j < s.len() ==> !is_digit(s[j]))
}

/// The hexadecimal counterpart of [`scan_post`].
pub open spec fn hex_scan_post(s: Seq<char>, from: int, j: int) -> bool {
    &&& from <= j <= s.len()
    &&& (forall|k: int| from <= k < j ==> is_hex_digit(#[trigger] s[k]))
    &&& (j < s.len() ==> !is_hex_digit(s[j]))
}

/// A decimal scan's report determines [`dec_run_end`].
proof fn lemma_scan_is_dec_run_end(s: Seq<char>, from: int, j: int)
    requires
        0 <= from,
        scan_post(s, from, j),
    ensures
        j == dec_run_end(s, from),
    decreases j - from,
{
    if from < j {
        assert(is_digit(s[from]));
        lemma_scan_is_dec_run_end(s, from + 1, j);
    }
}

/// A hexadecimal scan's report determines [`hex_run_end`].
proof fn lemma_scan_is_hex_run_end(s: Seq<char>, from: int, j: int)
    requires
        0 <= from,
        hex_scan_post(s, from, j),
    ensures
        j == hex_run_end(s, from),
    decreases j - from,
{
    if from < j {
        assert(is_hex_digit(s[from]));
        lemma_scan_is_hex_run_end(s, from + 1, j);
    }
}

// ---------------------------------------------------------------------------
// Scans and numeric reads (executable)
// ---------------------------------------------------------------------------

/// Scan forward from `from` over decimal digits; return the first index at
/// or after `from` that is not a digit (or the length of the string).
fn scan_digits(s: &str, from: usize) -> (j: usize)
    requires
        from <= s@.len(),
    ensures
        scan_post(s@, from as int, j as int),
        j as int == dec_run_end(s@, from as int),
{
    let n = s.unicode_len();
    let mut j = from;
    while j < n
        invariant
            from <= j <= n,
            n == s@.len(),
            forall|k: int| from <= k < j ==> is_digit(#[trigger] s@[k]),
        decreases n - j,
    {
        let c = s.get_char(j);
        if !(c >= '0' && c <= '9') {
            proof {
                lemma_scan_is_dec_run_end(s@, from as int, j as int);
            }
            return j;
        }
        j = j + 1;
    }
    proof {
        lemma_scan_is_dec_run_end(s@, from as int, j as int);
    }
    j
}

/// Scan forward from `from` over hexadecimal digits; return the first
/// index at or after `from` that is not a hex digit (or the length of the
/// string).
fn scan_hex(s: &str, from: usize) -> (j: usize)
    requires
        from <= s@.len(),
    ensures
        hex_scan_post(s@, from as int, j as int),
        j as int == hex_run_end(s@, from as int),
{
    let n = s.unicode_len();
    let mut j = from;
    while j < n
        invariant
            from <= j <= n,
            n == s@.len(),
            forall|k: int| from <= k < j ==> is_hex_digit(#[trigger] s@[k]),
        decreases n - j,
    {
        let c = s.get_char(j);
        if !((c >= '0' && c <= '9') || (c >= 'a' && c <= 'f') || (c >= 'A' && c <= 'F')) {
            proof {
                lemma_scan_is_hex_run_end(s@, from as int, j as int);
            }
            return j;
        }
        j = j + 1;
    }
    proof {
        lemma_scan_is_hex_run_end(s@, from as int, j as int);
    }
    j
}

/// The value of a digit sequence is nonnegative.
proof fn lemma_dec_value_nonneg(s: Seq<char>)
    requires
        all_digits(s),
    ensures
        dec_value(s) >= 0,
    decreases s.len(),
{
    if s.len() > 0 {
        assert(all_digits(s.drop_last()));
        lemma_dec_value_nonneg(s.drop_last());
    }
}

/// A prefix of a digit sequence has a value no greater than the whole.
proof fn lemma_dec_value_prefix_le(s: Seq<char>, n: int)
    requires
        all_digits(s),
        0 <= n <= s.len(),
    ensures
        dec_value(s.take(n)) <= dec_value(s),
    decreases s.len(),
{
    if n == s.len() {
        assert(s.take(n) =~= s);
    } else {
        assert(all_digits(s.drop_last()));
        assert(s.take(n) =~= s.drop_last().take(n));
        lemma_dec_value_prefix_le(s.drop_last(), n);
        lemma_dec_value_nonneg(s.drop_last());
    }
}

/// Powers of sixteen are at least one.
proof fn lemma_pow16_pos(n: int)
    ensures
        pow16(n) >= 1,
    decreases n,
{
    if n > 0 {
        lemma_pow16_pos(n - 1);
    }
}

/// Powers of sixteen grow with the exponent.
proof fn lemma_pow16_le(a: int, b: int)
    requires
        a <= b,
    ensures
        pow16(a) <= pow16(b),
    decreases b - a,
{
    if a < b {
        lemma_pow16_le(a, b - 1);
        lemma_pow16_pos(b - 1);
    }
}

/// The value of `n` hex digits is below sixteen to the `n`.
proof fn lemma_hex_value_bound(s: Seq<char>)
    requires
        all_hex_digits(s),
    ensures
        0 <= hex_value(s) < pow16(s.len() as int),
    decreases s.len(),
{
    if s.len() > 0 {
        assert(all_hex_digits(s.drop_last()));
        lemma_hex_value_bound(s.drop_last());
    }
}

/// Read the digits of `s` between `from` and `to` as a decimal number,
/// refusing an empty range and any value above `max`.
fn parse_decimal(s: &str, from: usize, to: usize, max: u32) -> (r: Option<u32>)
    requires
        from <= to <= s@.len(),
        forall|k: int| from <= k < to ==> is_digit(#[trigger] s@[k]),
    ensures
        match r {
            Some(v) => from < to && v <= max && v as int == dec_value(
                s@.subrange(from as int, to as int),
            ),
            None => from == to || dec_value(s@.subrange(from as int, to as int)) > max,
        },
{
    if from == to {
        return None;
    }
    let mut i = from;
    let mut acc: u64 = 0;
    while i < to
        invariant
            from <= i <= to,
            to <= s@.len(),
            forall|k: int| from <= k < to ==> is_digit(#[trigger] s@[k]),
            acc <= max as u64,
            acc as int == dec_value(s@.subrange(from as int, i as int)),
        decreases to - i,
    {
        let c = s.get_char(i);
        let d: u64 = ((c as u32) - ('0' as u32)) as u64;
        proof {
            assert(is_digit(s@[i as int]));
            assert(s@.subrange(from as int, i as int + 1) =~= s@.subrange(
                from as int,
                i as int,
            ).push(s@[i as int]));
            assert(s@.subrange(from as int, i as int + 1).drop_last() =~= s@.subrange(
                from as int,
                i as int,
            ));
        }
        let next: u64 = acc * 10 + d;
        assert(next as int == dec_value(s@.subrange(from as int, i as int + 1)));
        if next > max as u64 {
            proof {
                let whole = s@.subrange(from as int, to as int);
                assert(all_digits(whole));
                assert(whole.take(i as int + 1 - from) =~= s@.subrange(from as int, i as int + 1));
                lemma_dec_value_prefix_le(whole, i as int + 1 - from);
            }
            return None;
        }
        acc = next;
        i = i + 1;
    }
    Some(acc as u32)
}

// ---------------------------------------------------------------------------
// Reading the IPv6 pieces (executable, each exact against its reader)
// ---------------------------------------------------------------------------

/// The numeric value of one hexadecimal digit character.
fn hex_digit_value(c: char) -> (d: u32)
    requires
        is_hex_digit(c),
    ensures
        d as int == hex_val(c),
        d <= 15,
{
    if c >= '0' && c <= '9' {
        (c as u32) - ('0' as u32)
    } else if c >= 'a' && c <= 'f' {
        10 + ((c as u32) - ('a' as u32))
    } else {
        10 + ((c as u32) - ('A' as u32))
    }
}

/// Read one decimal octet at `i`, as [`spec_read_octet`] reads it.
fn read_octet_at(s: &str, i: usize) -> (r: Option<(u8, usize)>)
    requires
        i <= s@.len(),
    ensures
        match r {
            Some((v, j)) => spec_read_octet(s@, i as int) == Some((v, j as int)) && i < j
                <= s@.len(),
            None => spec_read_octet(s@, i as int) is None,
        },
{
    let j = scan_digits(s, i);
    if j == i || j - i > 3 {
        return None;
    }
    if j - i > 1 && s.get_char(i) == '0' {
        return None;
    }
    match parse_decimal(s, i, j, 255) {
        Some(v) => Some((v as u8, j)),
        None => None,
    }
}

/// Read a dotted IPv4 quad at `i`, as [`spec_read_ipv4`] reads it.
fn read_ipv4_at(s: &str, i: usize) -> (r: Option<((u8, u8, u8, u8), usize)>)
    requires
        i <= s@.len(),
    ensures
        match r {
            Some((q, j)) => spec_read_ipv4(s@, i as int) == Some((q, j as int)) && i < j
                <= s@.len(),
            None => spec_read_ipv4(s@, i as int) is None,
        },
{
    let n = s.unicode_len();
    let (a1, p1) = match read_octet_at(s, i) {
        Some(x) => x,
        None => {
            return None;
        },
    };
    if !(p1 < n && s.get_char(p1) == '.') {
        return None;
    }
    let (a2, p2) = match read_octet_at(s, p1 + 1) {
        Some(x) => x,
        None => {
            return None;
        },
    };
    if !(p2 < n && s.get_char(p2) == '.') {
        return None;
    }
    let (a3, p3) = match read_octet_at(s, p2 + 1) {
        Some(x) => x,
        None => {
            return None;
        },
    };
    if !(p3 < n && s.get_char(p3) == '.') {
        return None;
    }
    let (a4, p4) = match read_octet_at(s, p3 + 1) {
        Some(x) => x,
        None => {
            return None;
        },
    };
    Some(((a1, a2, a3, a4), p4))
}

/// Read one hexadecimal group at `i`, as [`spec_read_group`] reads it.
fn read_group_at(s: &str, i: usize) -> (r: Option<(u16, usize)>)
    requires
        i <= s@.len(),
    ensures
        match r {
            Some((g, j)) => spec_read_group(s@, i as int) == Some((g, j as int)) && i < j
                <= s@.len(),
            None => spec_read_group(s@, i as int) is None,
        },
{
    let j = scan_hex(s, i);
    if j == i || j - i > 4 {
        return None;
    }
    let mut k = i;
    let mut acc: u32 = 0;
    while k < j
        invariant
            i <= k <= j <= s@.len(),
            j - i <= 4,
            forall|m: int| i <= m < j ==> is_hex_digit(#[trigger] s@[m]),
            acc as int == hex_value(s@.subrange(i as int, k as int)),
            (acc as int) < pow16(k as int - i as int),
        decreases j - k,
    {
        let c = s.get_char(k);
        let d = hex_digit_value(c);
        proof {
            assert(s@.subrange(i as int, k as int + 1) =~= s@.subrange(i as int, k as int).push(
                s@[k as int],
            ));
            assert(s@.subrange(i as int, k as int + 1).drop_last() =~= s@.subrange(
                i as int,
                k as int,
            ));
            lemma_pow16_le(k as int - i as int + 1, 4);
            lemma_pow16_pos(k as int - i as int);
            assert(pow16(4) == 0x10000) by {
                reveal_with_fuel(pow16, 5);
            }
        }
        acc = acc * 16 + d;
        k = k + 1;
    }
    proof {
        lemma_pow16_le(j as int - i as int, 4);
        assert(pow16(4) == 0x10000) by {
            reveal_with_fuel(pow16, 5);
        }
    }
    Some((acc as u16, j))
}

/// Read up to `limit` groups at `i`, as [`spec_read_groups`] reads them.
fn read_groups_at(s: &str, i: usize, limit: usize, first: bool) -> (r: (Vec<u16>, usize, bool))
    requires
        i <= s@.len(),
    ensures
        ({
            let (gs, j, quad) = spec_read_groups(s@, i as int, limit as int, first);
            &&& r.0@ == gs
            &&& r.1 as int == j
            &&& r.2 == quad
            &&& i <= r.1 <= s@.len()
            &&& r.0@.len() <= limit
        }),
    decreases limit,
{
    if limit == 0 {
        return (Vec::new(), i, false);
    }
    let n = s.unicode_len();
    let start: usize = if first {
        i
    } else {
        if i < n && s.get_char(i) == ':' {
            i + 1
        } else {
            return (Vec::new(), i, false);
        }
    };
    if limit >= 2 {
        if let Some(((a1, a2, a3, a4), j)) = read_ipv4_at(s, start) {
            let g1: u16 = (a1 as u16) * 256 + (a2 as u16);
            let g2: u16 = (a3 as u16) * 256 + (a4 as u16);
            let mut v: Vec<u16> = Vec::new();
            v.push(g1);
            v.push(g2);
            proof {
                assert(v@ =~= quad_groups(a1, a2, a3, a4));
            }
            return (v, j, true);
        }
    }
    match read_group_at(s, start) {
        Some((g, j)) => {
            let (mut rest, k, quad) = read_groups_at(s, j, limit - 1, false);
            let ghost rest0 = rest@;
            let mut v: Vec<u16> = Vec::new();
            v.push(g);
            v.append(&mut rest);
            proof {
                assert(v@ =~= seq![g] + rest0);
            }
            (v, k, quad)
        },
        None => (Vec::new(), i, false),
    }
}

/// Read a full IPv6 address at `i`, as [`spec_read_ipv6`] reads it.
fn read_ipv6_at(s: &str, i: usize) -> (r: Option<(Vec<u16>, usize)>)
    requires
        i <= s@.len(),
    ensures
        match r {
            Some((gs, j)) => spec_read_ipv6(s@, i as int) == Some((gs@, j as int)) && gs@.len()
                == 8 && i <= j <= s@.len(),
            None => spec_read_ipv6(s@, i as int) is None,
        },
{
    let n = s.unicode_len();
    let (mut head, j, head_quad) = read_groups_at(s, i, 8, true);
    let head_len = head.len();
    if head_len == 8 {
        return Some((head, j));
    }
    if head_quad {
        return None;
    }
    if j < n && j + 1 < n && s.get_char(j) == ':' && s.get_char(j + 1) == ':' {
        let (mut tail, k, _quad) = read_groups_at(s, j + 2, 8 - head_len - 1, true);
        let tail_len = tail.len();
        let ghost head0 = head@;
        let ghost tail0 = tail@;
        let mut v: Vec<u16> = Vec::new();
        v.append(&mut head);
        let mut z: usize = 8 - head_len - tail_len;
        let ghost zeros = z;
        while z > 0
            invariant
                v@ =~= head0 + zero_groups(zeros as int - z as int),
                z <= zeros,
            decreases z,
        {
            proof {
                assert(zero_groups(zeros as int - z as int + 1) =~= zero_groups(
                    zeros as int - z as int,
                ).push(0u16));
            }
            v.push(0);
            z = z - 1;
        }
        v.append(&mut tail);
        proof {
            assert(v@ =~= head0 + zero_groups(zeros as int) + tail0);
        }
        return Some((v, k));
    }
    None
}

// ---------------------------------------------------------------------------
// Refuting a malformed string
// ---------------------------------------------------------------------------

/// A run of digits of `s` between `lo` and `hi` makes its subrange an
/// all-digit sequence.
proof fn lemma_range_digits_sub(s: Seq<char>, lo: int, hi: int)
    requires
        0 <= lo <= hi <= s.len(),
        forall|k: int| lo <= k < hi ==> is_digit(#[trigger] s[k]),
    ensures
        all_digits(s.subrange(lo, hi)),
{
    assert forall|k: int| 0 <= k < s.subrange(lo, hi).len() implies is_digit(
        #[trigger] s.subrange(lo, hi)[k],
    ) by {
        assert(s.subrange(lo, hi)[k] == s[k + lo]);
    }
}

/// An all-digit subrange of `s` makes every character of `s` in that range
/// a digit.
proof fn lemma_sub_digits_range(s: Seq<char>, lo: int, hi: int)
    requires
        0 <= lo <= hi <= s.len(),
        all_digits(s.subrange(lo, hi)),
    ensures
        forall|k: int| lo <= k < hi ==> is_digit(#[trigger] s[k]),
{
    assert forall|k: int| lo <= k < hi implies is_digit(#[trigger] s[k]) by {
        assert(s.subrange(lo, hi)[k - lo] == s[k]);
    }
}

/// A digit scan stops exactly at a known non-digit that only digits precede.
proof fn lemma_scan_hits_sep(s: Seq<char>, from: int, j: int, i: int)
    requires
        scan_post(s, from, j),
        from <= i < s.len(),
        forall|k: int| from <= k < i ==> is_digit(#[trigger] s[k]),
        !is_digit(s[i]),
    ensures
        j == i,
{
    if j < i {
        assert(is_digit(s[j]));
    }
    if j > i {
        assert(is_digit(s[i]));
    }
}

/// Parse the digits of `s` between `from` and `to` as one address octet.
fn parse_octet(s: &str, from: usize, to: usize) -> (r: Option<u8>)
    requires
        from <= to <= s@.len(),
        forall|k: int| from <= k < to ==> is_digit(#[trigger] s@[k]),
    ensures
        match r {
            Some(v) => is_octet_text(s@.subrange(from as int, to as int), v),
            None => no_octet_text(s@.subrange(from as int, to as int)),
        },
{
    proof {
        lemma_range_digits_sub(s@, from as int, to as int);
    }
    let ghost seg = s@.subrange(from as int, to as int);
    if to - from > 1 {
        let c0 = s.get_char(from);
        if c0 == '0' {
            assert(seg[0] == s@[from as int]);
            return None;
        }
    }
    match parse_decimal(s, from, to, 255) {
        Some(v) => {
            assert(seg.len() > 1 ==> seg[0] == s@[from as int]);
            Some(v as u8)
        },
        None => {
            assert forall|v: u8| !is_octet_text(seg, v) by {
                if from < to {
                    assert(dec_value(seg) > 255);
                }
            }
            None
        },
    }
}

/// Positions that split `s` into octet and port texts are pinned by the
/// digit scans: the first scan stops at the first dot, and each later scan
/// at the next separator.
proof fn lemma_pin_positions(
    s: Seq<char>,
    ep: Endpoint,
    i1: int,
    i2: int,
    i3: int,
    i4: int,
    j1: int,
    j2: int,
    j3: int,
    j4: int,
    stage: int,
)
    requires
        splits_as(s, i1, i2, i3, i4, ep),
        1 <= stage <= 4,
        scan_post(s, 0, j1),
        stage >= 2 ==> scan_post(s, j1 + 1, j2),
        stage >= 3 ==> scan_post(s, j2 + 1, j3),
        stage >= 4 ==> scan_post(s, j3 + 1, j4),
    ensures
        j1 == i1,
        stage >= 2 ==> j2 == i2,
        stage >= 3 ==> j3 == i3,
        stage >= 4 ==> j4 == i4,
{
    lemma_sub_digits_range(s, 0, i1);
    assert(!is_digit(s[i1]));
    lemma_scan_hits_sep(s, 0, j1, i1);
    if stage >= 2 {
        lemma_sub_digits_range(s, i1 + 1, i2);
        assert(!is_digit(s[i2]));
        lemma_scan_hits_sep(s, i1 + 1, j2, i2);
    }
    if stage >= 3 {
        lemma_sub_digits_range(s, i2 + 1, i3);
        assert(!is_digit(s[i3]));
        lemma_scan_hits_sep(s, i2 + 1, j3, i3);
    }
    if stage >= 4 {
        lemma_sub_digits_range(s, i3 + 1, i4);
        assert(!is_digit(s[i4]));
        lemma_scan_hits_sep(s, i3 + 1, j4, i4);
    }
}

/// A string that does not open a bracket denotes no endpoint if its scans
/// refute the IPv4 shape at some stage: a separator out of place, an octet
/// that is no octet, or a port that is no port.
proof fn lemma_refute_v4(s: Seq<char>, j1: int, j2: int, j3: int, j4: int, stage: int)
    requires
        s.len() == 0 || s[0] != '[',
        1 <= stage <= 5,
        scan_post(s, 0, j1),
        stage >= 2 ==> j1 < s.len() && s[j1] == '.' && scan_post(s, j1 + 1, j2),
        stage >= 3 ==> j2 < s.len() && s[j2] == '.' && scan_post(s, j2 + 1, j3),
        stage >= 4 ==> j3 < s.len() && s[j3] == '.' && scan_post(s, j3 + 1, j4),
        stage == 1 ==> (j1 == s.len() || s[j1] != '.' || no_octet_text(s.subrange(0, j1))),
        stage == 2 ==> (j2 == s.len() || s[j2] != '.' || no_octet_text(s.subrange(j1 + 1, j2))),
        stage == 3 ==> (j3 == s.len() || s[j3] != '.' || no_octet_text(s.subrange(j2 + 1, j3))),
        stage == 4 ==> (j4 == s.len() || s[j4] != ':' || no_octet_text(s.subrange(j3 + 1, j4))),
        stage == 5 ==> j4 < s.len() && s[j4] == ':' && no_port_text(
            s.subrange(j4 + 1, s.len() as int),
        ),
    ensures
        forall|ep: Endpoint| !is_endpoint_text(s, ep),
{
    assert(spec_v6_endpoint(s) is None);
    assert forall|ep: Endpoint| !is_endpoint_text(s, ep) by {
        if is_endpoint_text(s, ep) {
            if ep.host matches HostAddr::V4 { .. } {
                let (i1, i2, i3, i4): (int, int, int, int) = choose|
                    i1: int,
                    i2: int,
                    i3: int,
                    i4: int,
                | splits_as(s, i1, i2, i3, i4, ep);
                let pin = if stage == 5 {
                    4
                } else {
                    stage
                };
                lemma_pin_positions(s, ep, i1, i2, i3, i4, j1, j2, j3, j4, pin);
            }
        }
    }
}

/// A bracketed string whose deterministic reading fails denotes no
/// endpoint: no IPv4 text opens with a bracket, and the bracketed form is
/// exactly what [`spec_v6_endpoint`] reads.
proof fn lemma_refute_bracket(s: Seq<char>)
    requires
        s.len() > 0,
        s[0] == '[',
        spec_v6_endpoint(s) is None,
    ensures
        forall|ep: Endpoint| !is_endpoint_text(s, ep),
{
    assert forall|ep: Endpoint| !is_endpoint_text(s, ep) by {
        if is_endpoint_text(s, ep) {
            if ep.host matches HostAddr::V4 { .. } {
                let (i1, i2, i3, i4): (int, int, int, int) = choose|
                    i1: int,
                    i2: int,
                    i3: int,
                    i4: int,
                | splits_as(s, i1, i2, i3, i4, ep);
                assert(s.subrange(0, i1)[0] == s[0]);
            }
        }
    }
}

// ---------------------------------------------------------------------------
// Uniqueness of the grammar
// ---------------------------------------------------------------------------

/// Splitting positions of a well-formed IPv4 endpoint text satisfy what a
/// digit scan from the segment's start reports: only digits precede each
/// separator.
proof fn lemma_splits_give_scan_posts(
    s: Seq<char>,
    i1: int,
    i2: int,
    i3: int,
    i4: int,
    ep: Endpoint,
)
    requires
        splits_as(s, i1, i2, i3, i4, ep),
    ensures
        scan_post(s, 0, i1),
        scan_post(s, i1 + 1, i2),
        scan_post(s, i2 + 1, i3),
        scan_post(s, i3 + 1, i4),
{
    lemma_sub_digits_range(s, 0, i1);
    lemma_sub_digits_range(s, i1 + 1, i2);
    lemma_sub_digits_range(s, i2 + 1, i3);
    lemma_sub_digits_range(s, i3 + 1, i4);
}

/// The endpoint grammar is unambiguous: one string denotes at most one
/// endpoint, in one address family.
pub proof fn lemma_endpoint_text_unique(s: Seq<char>, ep1: Endpoint, ep2: Endpoint)
    requires
        is_endpoint_text(s, ep1),
        is_endpoint_text(s, ep2),
    ensures
        ep1 == ep2,
{
    if ep1.host matches HostAddr::V4 { .. } && ep2.host matches HostAddr::V4 { .. } {
        let (a1, a2, a3, a4): (int, int, int, int) = choose|a1: int, a2: int, a3: int, a4: int|
            splits_as(s, a1, a2, a3, a4, ep1);
        let (b1, b2, b3, b4): (int, int, int, int) = choose|b1: int, b2: int, b3: int, b4: int|
            splits_as(s, b1, b2, b3, b4, ep2);
        lemma_splits_give_scan_posts(s, a1, a2, a3, a4, ep1);
        lemma_pin_positions(s, ep2, b1, b2, b3, b4, a1, a2, a3, a4, 4);
    } else if ep1.host matches HostAddr::V4 { .. } {
        // an IPv4 text starts with a digit, a bracketed text with '['
        let (a1, a2, a3, a4): (int, int, int, int) = choose|a1: int, a2: int, a3: int, a4: int|
            splits_as(s, a1, a2, a3, a4, ep1);
        assert(s.subrange(0, a1)[0] == s[0]);
    } else if ep2.host matches HostAddr::V4 { .. } {
        let (b1, b2, b3, b4): (int, int, int, int) = choose|b1: int, b2: int, b3: int, b4: int|
            splits_as(s, b1, b2, b3, b4, ep2);
        assert(s.subrange(0, b1)[0] == s[0]);
    }
}

// ---------------------------------------------------------------------------
// The parser
// ---------------------------------------------------------------------------

/// Parse the IPv4 form `a.b.c.d:port`.
fn parse_v4_endpoint(s: &str) -> (r: Option<Endpoint>)
    requires
        s@.len() == 0 || s@[0] != '[',
    ensures
        match r {
            Some(ep) => is_endpoint_text(s@, ep),
            None => forall|ep: Endpoint| !is_endpoint_text(s@, ep),
        },
{
    let n = s.unicode_len();

    let j1 = scan_digits(s, 0);
    if j1 == n || s.get_char(j1) != '.' {
        proof {
            lemma_refute_v4(s@, j1 as int, 0, 0, 0, 1);
        }
        return None;
    }
    let o1 = match parse_octet(s, 0, j1) {
        Some(v) => v,
        None => {
            proof {
                lemma_refute_v4(s@, j1 as int, 0, 0, 0, 1);
            }
            return None;
        },
    };

    let j2 = scan_digits(s, j1 + 1);
    if j2 == n || s.get_char(j2) != '.' {
        proof {
            lemma_refute_v4(s@, j1 as int, j2 as int, 0, 0, 2);
        }
        return None;
    }
    let o2 = match parse_octet(s, j1 + 1, j2) {
        Some(v) => v,
        None => {
            proof {
                lemma_refute_v4(s@, j1 as int, j2 as int, 0, 0, 2);
            }
            return None;
        },
    };

    let j3 = scan_digits(s, j2 + 1);
    if j3 == n || s.get_char(j3) != '.' {
        proof {
            lemma_refute_v4(s@, j1 as int, j2 as int, j3 as int, 0, 3);
        }
        return None;
    }
    let o3 = match parse_octet(s, j2 + 1, j3) {
        Some(v) => v,
        None => {
            proof {
                lemma_refute_v4(s@, j1 as int, j2 as int, j3 as int, 0, 3);
            }
            return None;
        },
    };

    let j4 = scan_digits(s, j3 + 1);
    if j4 == n || s.get_char(j4) != ':' {
        proof {
            lemma_refute_v4(s@, j1 as int, j2 as int, j3 as int, j4 as int, 4);
        }
        return None;
    }
    let o4 = match parse_octet(s, j3 + 1, j4) {
        Some(v) => v,
        None => {
            proof {
                lemma_refute_v4(s@, j1 as int, j2 as int, j3 as int, j4 as int, 4);
            }
            return None;
        },
    };

    // The port runs from just after the colon to the end of the string,
    // digits only.
    let j5 = scan_digits(s, j4 + 1);
    if j5 != n {
        proof {
            let ptext = s@.subrange(j4 as int + 1, s@.len() as int);
            assert forall|p: u16| !is_port_text(ptext, p) by {
                if is_port_text(ptext, p) {
                    lemma_sub_digits_range(s@, j4 as int + 1, s@.len() as int);
                    assert(is_digit(s@[j5 as int]));
                }
            }
            assert(no_port_text(ptext));
            lemma_refute_v4(s@, j1 as int, j2 as int, j3 as int, j4 as int, 5);
        }
        return None;
    }
    let port = match parse_decimal(s, j4 + 1, n, 0xFFFF) {
        Some(v) => v,
        None => {
            proof {
                let ptext = s@.subrange(j4 as int + 1, s@.len() as int);
                assert forall|p: u16| !is_port_text(ptext, p) by {
                    if is_port_text(ptext, p) {
                        assert(ptext.len() >= 1);
                        assert(dec_value(ptext) == p as int);
                    }
                }
                assert(no_port_text(ptext));
                lemma_refute_v4(s@, j1 as int, j2 as int, j3 as int, j4 as int, 5);
            }
            return None;
        },
    };

    let ep = Endpoint { host: HostAddr::V4 { o1, o2, o3, o4 }, port: port as u16 };
    proof {
        lemma_range_digits_sub(s@, j4 as int + 1, n as int);
        assert(splits_as(s@, j1 as int, j2 as int, j3 as int, j4 as int, ep));
    }
    Some(ep)
}

/// Parse the bracketed IPv6 form `[address]:port`, with an optional
/// `%scope` before the closing bracket.
fn parse_v6_endpoint(s: &str) -> (r: Option<Endpoint>)
    requires
        s@.len() > 0,
        s@[0] == '[',
    ensures
        match r {
            Some(ep) => is_endpoint_text(s@, ep),
            None => forall|ep: Endpoint| !is_endpoint_text(s@, ep),
        },
{
    let n = s.unicode_len();
    let (gs, j) = match read_ipv6_at(s, 1) {
        Some(x) => x,
        None => {
            proof {
                lemma_refute_bracket(s@);
            }
            return None;
        },
    };

    let (scope, p): (u32, usize) = if j < n && s.get_char(j) == '%' {
        let e = scan_digits(s, j + 1);
        match parse_decimal(s, j + 1, e, 0xFFFF_FFFF) {
            Some(v) => (v, e),
            None => {
                proof {
                    lemma_refute_bracket(s@);
                }
                return None;
            },
        }
    } else {
        (0u32, j)
    };

    if !(p < n && p + 1 < n && s.get_char(p) == ']' && s.get_char(p + 1) == ':') {
        proof {
            lemma_refute_bracket(s@);
        }
        return None;
    }
    let q = scan_digits(s, p + 2);
    if q != n {
        proof {
            lemma_refute_bracket(s@);
        }
        return None;
    }
    let port = match parse_decimal(s, p + 2, q, 0xFFFF) {
        Some(v) => v,
        None => {
            proof {
                lemma_refute_bracket(s@);
            }
            return None;
        },
    };

    let ep = Endpoint {
        host: HostAddr::V6 {
            g0: gs[0],
            g1: gs[1],
            g2: gs[2],
            g3: gs[3],
            g4: gs[4],
            g5: gs[5],
            g6: gs[6],
            g7: gs[7],
            scope,
        },
        port: port as u16,
    };
    proof {
        assert(spec_v6_endpoint(s@) == Some(ep));
    }
    Some(ep)
}

/// Parse a textual `ip:port` endpoint, in either address family.
///
/// Returns the denoted endpoint exactly when the whole string is
/// well-formed under [`is_endpoint_text`], and `None` otherwise.
pub fn parse_endpoint(s: &str) -> (r: Option<Endpoint>)
    ensures
        match r {
            Some(ep) => is_endpoint_text(s@, ep),
            None => forall|ep: Endpoint| !is_endpoint_text(s@, ep),
        },
{
    let n = s.unicode_len();
    if n > 0 && s.get_char(0) == '[' {
        parse_v6_endpoint(s)
    } else {
        parse_v4_endpoint(s)
    }
}

} // verus!
