use vstd::prelude::*;

verus! {

/// The eight 16-bit segments of an IPv6 address, most significant first.
#[derive(Clone, Copy, Debug, PartialEq, Eq, Hash, Structural)]
pub struct Segments(pub u16, pub u16, pub u16, pub u16, pub u16, pub u16, pub u16, pub u16);

/// A socket address: an IPv4 address (four octets) or an IPv6 address
/// (eight segments, flow info and scope id), with a port.
#[derive(Clone, Copy, Debug, PartialEq, Eq, Hash, Structural)]
pub enum SocketAddress {
    V4 { a: u8, b: u8, c: u8, d: u8, port: u16 },
    V6 { segments: Segments, flowinfo: u32, scope_id: u32, port: u16 },
}

pub open spec fn is_digit(c: char) -> bool {
    '0' <= c && c <= '9'
}

pub open spec fn digit_value(c: char) -> nat {
    ((c as u32) - ('0' as u32)) as nat
}

pub open spec fn all_digits(s: Seq<char>) -> bool {
    forall|i: int| 0 <= i < s.len() ==> is_digit(#[trigger] s[i])
}

/// The value of a string of decimal digits, most significant first.
pub open spec fn decimal_value(s: Seq<char>) -> nat
    decreases s.len(),
{
    if s.len() == 0 {
        0
    } else {
        decimal_value(s.drop_last()) * 10 + digit_value(s.last())
    }
}

/// One to three decimal digits, no leading zero (octal-looking forms are
/// refused), value at most 255.
pub open spec fn is_octet_text(s: Seq<char>) -> bool {
    &&& 1 <= s.len() <= 3
    &&& all_digits(s)
    &&& (s.len() > 1 ==> s[0] != '0')
    &&& decimal_value(s) <= 255
}

/// One or more decimal digits (leading zeros allowed), value at most 65535.
pub open spec fn is_port_text(s: Seq<char>) -> bool {
    &&& 1 <= s.len()
    &&& all_digits(s)
    &&& decimal_value(s) <= 65535
}

/// `s` is written `o0.o1.o2.o3:p` with these parts.
pub open spec fn spells(
    s: Seq<char>,
    o0: Seq<char>,
    o1: Seq<char>,
    o2: Seq<char>,
    o3: Seq<char>,
    p: Seq<char>,
) -> bool {
    &&& s == o0 + seq!['.'] + o1 + seq!['.'] + o2 + seq!['.'] + o3 + seq![':'] + p
    &&& is_octet_text(o0)
    &&& is_octet_text(o1)
    &&& is_octet_text(o2)
    &&& is_octet_text(o3)
    &&& is_port_text(p)
}

/// `s` is a well-formed `a.b.c.d:port` text.
pub open spec fn is_socket_addr_text(s: Seq<char>) -> bool {
    exists|o0: Seq<char>, o1: Seq<char>, o2: Seq<char>, o3: Seq<char>, p: Seq<char>|
        spells(s, o0, o1, o2, o3, p)
}

/// The address that the parts of a well-formed text denote.
pub open spec fn address_of_parts(
    o0: Seq<char>,
    o1: Seq<char>,
    o2: Seq<char>,
    o3: Seq<char>,
    p: Seq<char>,
) -> SocketAddress {
    SocketAddress::V4 {
        a: decimal_value(o0) as u8,
        b: decimal_value(o1) as u8,
        c: decimal_value(o2) as u8,
        d: decimal_value(o3) as u8,
        port: decimal_value(p) as u16,
    }
}

/// The IPv4 address that `s` denotes, or `None` when `s` is not a
/// well-formed `a.b.c.d:port` text.
pub open spec fn v4_address_of(s: Seq<char>) -> Option<SocketAddress> {
    if is_socket_addr_text(s) {
        let (o0, o1, o2, o3, p) = choose|
            o0: Seq<char>,
            o1: Seq<char>,
            o2: Seq<char>,
            o3: Seq<char>,
            p: Seq<char>,
        | spells(s, o0, o1, o2, o3, p);
        Some(address_of_parts(o0, o1, o2, o3, p))
    } else {
        None
    }
}

/// End of the maximal run of digits in `s` that starts at `i`.
pub open spec fn run_end(s: Seq<char>, i: int) -> int
    decreases s.len() - i,
{
    if 0 <= i < s.len() && is_digit(s[i]) {
        run_end(s, i + 1)
    } else {
        i
    }
}

proof fn lemma_run_end(s: Seq<char>, i: int)
    requires
        0 <= i <= s.len(),
    ensures
        i <= run_end(s, i) <= s.len(),
        all_digits(s.subrange(i, run_end(s, i))),
        run_end(s, i) < s.len() ==> !is_digit(s[run_end(s, i)]),
    decreases s.len() - i,
{
    if i < s.len() && is_digit(s[i]) {
        lemma_run_end(s, i + 1);
        let e = run_end(s, i);
        assert forall|k: int| 0 <= k < e - i implies is_digit(#[trigger] s.subrange(i, e)[k]) by {
            if k > 0 {
                assert(s.subrange(i, e)[k] == s.subrange(i + 1, e)[k - 1]);
            }
        }
    }
}

/// A field of digits followed by a non-digit (or the end) is exactly the
/// maximal digit run at its start.
proof fn lemma_run_end_of_field(s: Seq<char>, start: int, o: Seq<char>)
    requires
        0 <= start,
        start + o.len() <= s.len(),
        s.subrange(start, start + o.len()) == o,
        all_digits(o),
        start + o.len() < s.len() ==> !is_digit(s[start + o.len()]),
    ensures
        run_end(s, start) == start + o.len(),
{
    lemma_run_end(s, start);
    let e = run_end(s, start);
    if e < start + o.len() {
        assert(o[e - start] == s[e]);
    } else if e > start + o.len() {
        assert(s.subrange(start, e)[o.len() as int] == s[start + o.len()]);
    }
}

/// The value of a prefix of a digit string is at most the value of the whole.
proof fn lemma_prefix_value_le(s: Seq<char>, k: int)
    requires
        0 <= k <= s.len(),
    ensures
        decimal_value(s.subrange(0, k)) <= decimal_value(s),
    decreases s.len(),
{
    if k < s.len() {
        assert(s.drop_last().subrange(0, k) =~= s.subrange(0, k));
        lemma_prefix_value_le(s.drop_last(), k);
    } else {
        assert(s.subrange(0, k) =~= s);
    }
}

/// The octet field that starts at `start` is well formed and followed by `sep`.
#[verifier::opaque]
spec fn octet_field_ok(s: Seq<char>, start: int, sep: char) -> bool {
    let e = run_end(s, start);
    e < s.len() && s[e] == sep && is_octet_text(s.subrange(start, e))
}

/// The port field that starts at `start` is well formed and ends the text.
#[verifier::opaque]
spec fn port_field_ok(s: Seq<char>, start: int) -> bool {
    run_end(s, start) == s.len() && is_port_text(s.subrange(start, s.len() as int))
}

spec fn field_value_at(s: Seq<char>, start: int) -> nat {
    decimal_value(s.subrange(start, run_end(s, start)))
}

/// Positions of the separators in a well-formed text are forced: each field
/// is the maximal digit run where it starts.
spec fn fields_ok(s: Seq<char>) -> bool {
    let e0 = run_end(s, 0);
    let e1 = run_end(s, e0 + 1);
    let e2 = run_end(s, e1 + 1);
    let e3 = run_end(s, e2 + 1);
    &&& octet_field_ok(s, 0, '.')
    &&& octet_field_ok(s, e0 + 1, '.')
    &&& octet_field_ok(s, e1 + 1, '.')
    &&& octet_field_ok(s, e2 + 1, ':')
    &&& port_field_ok(s, e3 + 1)
}

spec fn fields_address(s: Seq<char>) -> SocketAddress {
    let e0 = run_end(s, 0);
    let e1 = run_end(s, e0 + 1);
    let e2 = run_end(s, e1 + 1);
    let e3 = run_end(s, e2 + 1);
    SocketAddress::V4 {
        a: field_value_at(s, 0) as u8,
        b: field_value_at(s, e0 + 1) as u8,
        c: field_value_at(s, e1 + 1) as u8,
        d: field_value_at(s, e2 + 1) as u8,
        port: field_value_at(s, e3 + 1) as u16,
    }
}

proof fn lemma_spells_fields(
    s: Seq<char>,
    o0: Seq<char>,
    o1: Seq<char>,
    o2: Seq<char>,
    o3: Seq<char>,
    p: Seq<char>,
)
    requires
        spells(s, o0, o1, o2, o3, p),
    ensures
        fields_ok(s),
        address_of_parts(o0, o1, o2, o3, p) == fields_address(s),
{
    reveal(octet_field_ok);
    reveal(port_field_ok);
    let q1: int = o0.len() as int + 1;
    let q2: int = q1 + o1.len() + 1;
    let q3: int = q2 + o2.len() + 1;
    let q4: int = q3 + o3.len() + 1;
    assert(s.subrange(0, o0.len() as int) =~= o0);
    assert(s.subrange(q1, q1 + o1.len()) =~= o1);
    assert(s.subrange(q2, q2 + o2.len()) =~= o2);
    assert(s.subrange(q3, q3 + o3.len()) =~= o3);
    assert(s.subrange(q4, s.len() as int) =~= p);
    assert(s[q1 - 1] == '.');
    assert(s[q2 - 1] == '.');
    assert(s[q3 - 1] == '.');
    assert(s[q4 - 1] == ':');
    lemma_run_end_of_field(s, 0, o0);
    lemma_run_end_of_field(s, q1, o1);
    lemma_run_end_of_field(s, q2, o2);
    lemma_run_end_of_field(s, q3, o3);
    assert(field_value_at(s, 0) == decimal_value(o0));
    assert(field_value_at(s, q1) == decimal_value(o1));
    assert(field_value_at(s, q2) == decimal_value(o2));
    assert(field_value_at(s, q3) == decimal_value(o3));
    lemma_run_end(s, q4);
    if run_end(s, q4) < s.len() {
        assert(p[run_end(s, q4) - q4] == s[run_end(s, q4)]);
    }
    assert(field_value_at(s, q4) == decimal_value(p));
}

proof fn lemma_text_forward(s: Seq<char>)
    requires
        is_socket_addr_text(s),
    ensures
        fields_ok(s),
        v4_address_of(s) == Some(fields_address(s)),
{
    let (o0, o1, o2, o3, p) = choose|
        o0: Seq<char>,
        o1: Seq<char>,
        o2: Seq<char>,
        o3: Seq<char>,
        p: Seq<char>,
    | spells(s, o0, o1, o2, o3, p);
    lemma_spells_fields(s, o0, o1, o2, o3, p);
}

proof fn lemma_cut(s: Seq<char>, from: int, e: int)
    requires
        0 <= from <= e < s.len(),
    ensures
        s.subrange(from, s.len() as int) == s.subrange(from, e) + seq![s[e]] + s.subrange(
            e + 1,
            s.len() as int,
        ),
{
    assert(s.subrange(from, s.len() as int) =~= s.subrange(from, e) + seq![s[e]] + s.subrange(
        e + 1,
        s.len() as int,
    ));
}

proof fn lemma_regroup(
    o0: Seq<char>,
    o1: Seq<char>,
    o2: Seq<char>,
    o3: Seq<char>,
    p: Seq<char>,
)
    ensures
        o0 + seq!['.'] + (o1 + seq!['.'] + (o2 + seq!['.'] + (o3 + seq![':'] + p))) == o0
            + seq!['.'] + o1 + seq!['.'] + o2 + seq!['.'] + o3 + seq![':'] + p,
{
    assert(o0 + seq!['.'] + (o1 + seq!['.'] + (o2 + seq!['.'] + (o3 + seq![':'] + p))) =~= o0
        + seq!['.'] + o1 + seq!['.'] + o2 + seq!['.'] + o3 + seq![':'] + p);
}

proof fn lemma_text_backward(s: Seq<char>)
    requires
        fields_ok(s),
    ensures
        is_socket_addr_text(s),
{
    reveal(octet_field_ok);
    reveal(port_field_ok);
    let n = s.len() as int;
    let e0 = run_end(s, 0);
    let e1 = run_end(s, e0 + 1);
    let e2 = run_end(s, e1 + 1);
    let e3 = run_end(s, e2 + 1);
    lemma_run_end(s, 0);
    lemma_run_end(s, e0 + 1);
    lemma_run_end(s, e1 + 1);
    lemma_run_end(s, e2 + 1);
    let o0 = s.subrange(0, e0);
    let o1 = s.subrange(e0 + 1, e1);
    let o2 = s.subrange(e1 + 1, e2);
    let o3 = s.subrange(e2 + 1, e3);
    let p = s.subrange(e3 + 1, n);
    lemma_cut(s, e2 + 1, e3);
    lemma_cut(s, e1 + 1, e2);
    lemma_cut(s, e0 + 1, e1);
    lemma_cut(s, 0, e0);
    assert(s.subrange(0, n) =~= s);
    lemma_regroup(o0, o1, o2, o3, p);
    assert(spells(s, o0, o1, o2, o3, p));
}

/// A text is well formed exactly when its forced fields are, and it then
/// denotes the address those fields spell.
proof fn lemma_text_fields(s: Seq<char>)
    ensures
        is_socket_addr_text(s) <==> fields_ok(s),
        fields_ok(s) ==> v4_address_of(s) == Some(fields_address(s)),
{
    if is_socket_addr_text(s) {
        lemma_text_forward(s);
    }
    if fields_ok(s) {
        lemma_text_backward(s);
        lemma_text_forward(s);
    }
}

fn is_digit_char(c: char) -> (r: bool)
    ensures
        r == is_digit(c),
{
    '0' <= c && c <= '9'
}

/// Exclusive end of the run of digits of `s` that starts at `start`.
fn digit_run_end(s: &str, n: usize, start: usize) -> (end: usize)
    requires
        n == s@.len(),
        start <= n,
    ensures
        end == run_end(s@, start as int),
{
    let mut end: usize = start;
    while end < n
        invariant
            start <= end <= n,
            n == s@.len(),
            run_end(s@, start as int) == run_end(s@, end as int),
        decreases n - end,
    {
        let c = s.get_char(end);
        if !is_digit_char(c) {
            return end;
        }
        end = end + 1;
    }
    end
}

/// The decimal value of `s[start..end]` when it is at most `limit`.
fn field_value(s: &str, n: usize, start: usize, end: usize, limit: u64) -> (r: Option<u64>)
    requires
        n == s@.len(),
        start <= end <= n,
        all_digits(s@.subrange(start as int, end as int)),
        limit <= 0xffff_ffff,
    ensures
        match r {
            Some(v) => v == decimal_value(s@.subrange(start as int, end as int)) && v <= limit,
            None => decimal_value(s@.subrange(start as int, end as int)) > limit,
        },
{
    let ghost field = s@.subrange(start as int, end as int);
    let mut v: u64 = 0;
    let mut i: usize = start;
    while i < end
        invariant
            start <= i <= end <= n,
            n == s@.len(),
            field == s@.subrange(start as int, end as int),
            all_digits(field),
            v == decimal_value(s@.subrange(start as int, i as int)),
            v <= limit,
            limit <= 0xffff_ffff,
        decreases end - i,
    {
        let c = s.get_char(i);
        proof {
            assert(field[i - start] == c);
            assert(s@.subrange(start as int, i + 1).drop_last() =~= s@.subrange(
                start as int,
                i as int,
            ));
        }
        v = v * 10 + (c as u64 - '0' as u64);
        if v > limit {
            proof {
                assert(field.subrange(0, i + 1 - start) =~= s@.subrange(start as int, i + 1));
                lemma_prefix_value_le(field, i + 1 - start);
            }
            return None;
        }
        i = i + 1;
    }
    Some(v)
}

/// The octet written at `s[start..end]`, if that field is an octet.
fn octet_value(s: &str, n: usize, start: usize, end: usize) -> (r: Option<u8>)
    requires
        n == s@.len(),
        start <= end <= n,
        all_digits(s@.subrange(start as int, end as int)),
    ensures
        r is Some <==> is_octet_text(s@.subrange(start as int, end as int)),
        r is Some ==> r->0 as nat == decimal_value(s@.subrange(start as int, end as int)),
{
    if end == start || end - start > 3 {
        return None;
    }
    if end - start > 1 && s.get_char(start) == '0' {
        return None;
    }
    match field_value(s, n, start, end, 255) {
        Some(v) => Some(v as u8),
        None => None,
    }
}

/// The port written at `s[start..end]`, if that field is a port.
fn port_value(s: &str, n: usize, start: usize, end: usize) -> (r: Option<u16>)
    requires
        n == s@.len(),
        start <= end <= n,
        all_digits(s@.subrange(start as int, end as int)),
    ensures
        r is Some <==> is_port_text(s@.subrange(start as int, end as int)),
        r is Some ==> r->0 as nat == decimal_value(s@.subrange(start as int, end as int)),
{
    if end == start {
        return None;
    }
    match field_value(s, n, start, end, 65535) {
        Some(v) => Some(v as u16),
        None => None,
    }
}

/// One field and the separator after it: the end of the field and its value.
fn octet_then(s: &str, n: usize, start: usize, sep: char) -> (r: Option<(usize, u8)>)
    requires
        n == s@.len(),
        start <= n,
    ensures
        match r {
            Some((end, v)) => octet_field_ok(s@, start as int, sep) && end < n && end == run_end(
                s@,
                start as int,
            ) && v as nat == field_value_at(s@, start as int),
            None => !octet_field_ok(s@, start as int, sep),
        },
{
    let e = digit_run_end(s, n, start);
    proof {
        lemma_run_end(s@, start as int);
        reveal(octet_field_ok);
    }
    if e >= n || s.get_char(e) != sep {
        return None;
    }
    match octet_value(s, n, start, e) {
        Some(v) => Some((e, v)),
        None => None,
    }
}

/// Parses `a.b.c.d:port` text; `None` for any other text.
fn parse_v4(s: &str) -> (r: Option<SocketAddress>)
    ensures
        r == v4_address_of(s@),
{
    proof {
        lemma_text_fields(s@);
    }
    let n = s.unicode_len();
    let (e0, a) = match octet_then(s, n, 0, '.') {
        Some(x) => x,
        None => return None,
    };
    let (e1, b) = match octet_then(s, n, e0 + 1, '.') {
        Some(x) => x,
        None => return None,
    };
    let (e2, c) = match octet_then(s, n, e1 + 1, '.') {
        Some(x) => x,
        None => return None,
    };
    let (e3, d) = match octet_then(s, n, e2 + 1, ':') {
        Some(x) => x,
        None => return None,
    };
    let e4 = digit_run_end(s, n, e3 + 1);
    proof {
        lemma_run_end(s@, e3 + 1);
        reveal(port_field_ok);
    }
    if e4 != n {
        return None;
    }
    let port = match port_value(s, n, e3 + 1, n) {
        Some(x) => x,
        None => return None,
    };
    Some(SocketAddress::V4 { a, b, c, d, port })
}

// ---------------------------------------------------------------------------
// The bracketed IPv6 form `[segments%scope]:port`.
// ---------------------------------------------------------------------------

pub open spec fn char_at(s: Seq<char>, i: int, c: char) -> bool {
    0 <= i < s.len() && s[i] == c
}

pub open spec fn is_hex_digit(c: char) -> bool {
    is_digit(c) || ('a' <= c && c <= 'f') || ('A' <= c && c <= 'F')
}

pub open spec fn hex_digit_value(c: char) -> nat {
    if is_digit(c) {
        digit_value(c)
    } else if 'a' <= c && c <= 'f' {
        ((c as u32) - ('a' as u32) + 10) as nat
    } else {
        ((c as u32) - ('A' as u32) + 10) as nat
    }
}

/// The value of a string of hexadecimal digits, most significant first.
pub open spec fn hex_value(s: Seq<char>) -> nat
    decreases s.len(),
{
    if s.len() == 0 {
        0
    } else {
        hex_value(s.drop_last()) * 16 + hex_digit_value(s.last())
    }
}

/// End of the maximal run of hexadecimal digits in `s` that starts at `i`.
pub open spec fn hex_run_end(s: Seq<char>, i: int) -> int
    decreases s.len() - i,
{
    if 0 <= i < s.len() && is_hex_digit(s[i]) {
        hex_run_end(s, i + 1)
    } else {
        i
    }
}

/// A decimal octet at `i` (one to three digits, no leading zero, at most
/// 255): where it ends and its value.
pub open spec fn octet_field(s: Seq<char>, i: int) -> Option<(int, u8)> {
    let e = run_end(s, i);
    if is_octet_text(s.subrange(i, e)) {
        Some((e, decimal_value(s.subrange(i, e)) as u8))
    } else {
        None
    }
}

/// A group of one to four hexadecimal digits at `i`: where it ends and its
/// value.
pub open spec fn hex_group_field(s: Seq<char>, i: int) -> Option<(int, u16)> {
    let e = hex_run_end(s, i);
    if i < e <= i + 4 {
        Some((e, hex_value(s.subrange(i, e)) as u16))
    } else {
        None
    }
}

/// A dotted IPv4 address `a.b.c.d` at `i`: where it ends and its two
/// segments.
pub open spec fn ipv4_field(s: Seq<char>, i: int) -> Option<(int, Seq<u16>)> {
    match octet_field(s, i) {
        None => None,
        Some((e0, a)) => if !char_at(s, e0, '.') {
            None
        } else {
            match octet_field(s, e0 + 1) {
                None => None,
                Some((e1, b)) => if !char_at(s, e1, '.') {
                    None
                } else {
                    match octet_field(s, e1 + 1) {
                        None => None,
                        Some((e2, c)) => if !char_at(s, e2, '.') {
                            None
                        } else {
                            match octet_field(s, e2 + 1) {
                                None => None,
                                Some((e3, d)) => Some(
                                    (
                                        e3,
                                        seq![
                                            (a as int * 256 + b as int) as u16,
                                            (c as int * 256 + d as int) as u16,
                                        ],
                                    ),
                                ),
                            }
                        },
                    }
                },
            }
        },
    }
}

/// Reads colon-separated groups from `pos`, `k` of at most `limit` having been
/// read: the longest run of hexadecimal groups, where a dotted IPv4 address
/// may stand for the last two. Gives where the run ends, the segments read,
/// and whether it ended with an IPv4 address.
pub open spec fn groups_field(s: Seq<char>, pos: int, k: nat, limit: nat) -> (
    int,
    Seq<u16>,
    bool,
)
    decreases limit - k,
{
    if k >= limit {
        (pos, Seq::empty(), false)
    } else if k > 0 && !char_at(s, pos, ':') {
        (pos, Seq::empty(), false)
    } else {
        let start = if k > 0 {
            pos + 1
        } else {
            pos
        };
        let v4 = if k + 1 < limit {
            ipv4_field(s, start)
        } else {
            None
        };
        match v4 {
            Some((e, segs)) => (e, segs, true),
            None => match hex_group_field(s, start) {
                None => (pos, Seq::empty(), false),
                Some((e, g)) => {
                    let rest = groups_field(s, e, k + 1, limit);
                    (rest.0, seq![g] + rest.1, rest.2)
                },
            },
        }
    }
}

/// An IPv6 address at `i`: eight groups, or up to seven around one `::`
/// that stands for the missing zero groups. Gives where it ends and its
/// eight segments.
pub open spec fn ipv6_field(s: Seq<char>, i: int) -> Option<(int, Seq<u16>)> {
    let (he, head, head_v4) = groups_field(s, i, 0, 8);
    if head.len() == 8 {
        Some((he, head))
    } else if head_v4 {
        None
    } else if char_at(s, he, ':') && char_at(s, he + 1, ':') {
        let (te, tail, _) = groups_field(s, he + 2, 0, (7 - head.len()) as nat);
        Some((te, head + Seq::new((8 - head.len() - tail.len()) as nat, |j: int| 0u16) + tail))
    } else {
        None
    }
}

/// An optional `%` and decimal scope id at `p`; where it ends and its value,
/// or `p` and 0 when there is none.
pub open spec fn scope_field(s: Seq<char>, p: int) -> (int, u32) {
    let e = run_end(s, p + 1);
    if char_at(s, p, '%') && e > p + 1 && decimal_value(s.subrange(p + 1, e)) <= 0xffff_ffff {
        (e, decimal_value(s.subrange(p + 1, e)) as u32)
    } else {
        (p, 0)
    }
}

pub open spec fn segments_of(v: Seq<u16>) -> Segments {
    Segments(v[0], v[1], v[2], v[3], v[4], v[5], v[6], v[7])
}

/// The IPv6 socket address that `s` denotes, or `None` when `s` is not a
/// well-formed `[ipv6%scope]:port` text (the scope part being optional).
pub open spec fn v6_address_of(s: Seq<char>) -> Option<SocketAddress> {
    if !char_at(s, 0, '[') {
        None
    } else {
        match ipv6_field(s, 1) {
            None => None,
            Some((e, segs)) => {
                let (e2, scope_id) = scope_field(s, e);
                let pe = run_end(s, e2 + 2);
                if char_at(s, e2, ']') && char_at(s, e2 + 1, ':') && pe == s.len() && is_port_text(
                    s.subrange(e2 + 2, pe),
                ) {
                    Some(
                        SocketAddress::V6 {
                            segments: segments_of(segs),
                            flowinfo: 0,
                            scope_id,
                            port: decimal_value(s.subrange(e2 + 2, pe)) as u16,
                        },
                    )
                } else {
                    None
                }
            },
        }
    }
}

/// The socket address that `s` denotes: the IPv4 form is tried first, then
/// the bracketed IPv6 form; `None` when `s` is neither.
pub open spec fn socket_address_of(s: Seq<char>) -> Option<SocketAddress> {
    match v4_address_of(s) {
        Some(a) => Some(a),
        None => v6_address_of(s),
    }
}

proof fn lemma_groups_len(s: Seq<char>, pos: int, k: nat, limit: nat)
    ensures
        groups_field(s, pos, k, limit).1.len() <= if k <= limit {
            limit - k
        } else {
            0
        },
    decreases limit - k,
{
    if k < limit {
        let start = if k > 0 {
            pos + 1
        } else {
            pos
        };
        match hex_group_field(s, start) {
            Some((e, g)) => lemma_groups_len(s, e, k + 1, limit),
            None => {},
        }
    }
}

proof fn lemma_hex_run_end(s: Seq<char>, i: int)
    requires
        0 <= i <= s.len(),
    ensures
        i <= hex_run_end(s, i) <= s.len(),
        forall|j: int| i <= j < hex_run_end(s, i) ==> is_hex_digit(#[trigger] s[j]),
    decreases s.len() - i,
{
    if i < s.len() && is_hex_digit(s[i]) {
        lemma_hex_run_end(s, i + 1);
    }
}

fn char_is(s: &str, n: usize, i: usize, c: char) -> (r: bool)
    requires
        n == s@.len(),
    ensures
        r == char_at(s@, i as int, c),
{
    i < n && s.get_char(i) == c
}

fn read_octet(s: &str, n: usize, i: usize) -> (r: Option<(usize, u8)>)
    requires
        n == s@.len(),
        i <= n,
    ensures
        match r {
            Some((e, v)) => octet_field(s@, i as int) == Some((e as int, v)) && e <= n,
            None => octet_field(s@, i as int) is None,
        },
{
    let e = digit_run_end(s, n, i);
    proof {
        lemma_run_end(s@, i as int);
    }
    match octet_value(s, n, i, e) {
        Some(v) => Some((e, v)),
        None => None,
    }
}

fn hex_digit_of(c: char) -> (r: Option<u32>)
    ensures
        r is Some <==> is_hex_digit(c),
        r is Some ==> r->0 as nat == hex_digit_value(c) && r->0 < 16,
{
    if '0' <= c && c <= '9' {
        Some(c as u32 - '0' as u32)
    } else if 'a' <= c && c <= 'f' {
        Some(c as u32 - 'a' as u32 + 10)
    } else if 'A' <= c && c <= 'F' {
        Some(c as u32 - 'A' as u32 + 10)
    } else {
        None
    }
}

fn hex_run_end_at(s: &str, n: usize, start: usize) -> (end: usize)
    requires
        n == s@.len(),
        start <= n,
    ensures
        end == hex_run_end(s@, start as int),
{
    let mut end: usize = start;
    while end < n
        invariant
            start <= end <= n,
            n == s@.len(),
            hex_run_end(s@, start as int) == hex_run_end(s@, end as int),
        decreases n - end,
    {
        if hex_digit_of(s.get_char(end)).is_none() {
            return end;
        }
        end = end + 1;
    }
    end
}

fn read_hex_group(s: &str, n: usize, i: usize) -> (r: Option<(usize, u16)>)
    requires
        n == s@.len(),
        i <= n,
    ensures
        match r {
            Some((e, v)) => hex_group_field(s@, i as int) == Some((e as int, v)) && e <= n,
            None => hex_group_field(s@, i as int) is None,
        },
{
    let e = hex_run_end_at(s, n, i);
    proof {
        lemma_hex_run_end(s@, i as int);
    }
    if e == i || e - i > 4 {
        return None;
    }
    let mut j: usize = i;
    let mut v: u32 = 0;
    while j < e
        invariant
            i <= j <= e <= i + 4,
            e <= n,
            n == s@.len(),
            forall|t: int| i <= t < e ==> is_hex_digit(#[trigger] s@[t]),
            v == hex_value(s@.subrange(i as int, j as int)),
            v < if j - i == 0 {
                1u32
            } else if j - i == 1 {
                16u32
            } else if j - i == 2 {
                256u32
            } else if j - i == 3 {
                4096u32
            } else {
                65536u32
            },
        decreases e - j,
    {
        let c = s.get_char(j);
        let d = match hex_digit_of(c) {
            Some(d) => d,
            None => return None,
        };
        proof {
            assert(s@.subrange(i as int, j + 1).drop_last() =~= s@.subrange(i as int, j as int));
        }
        v = v * 16 + d;
        j = j + 1;
    }
    Some((e, v as u16))
}

fn read_ipv4(s: &str, n: usize, i: usize) -> (r: Option<(usize, u16, u16)>)
    requires
        n == s@.len(),
        i <= n,
    ensures
        match r {
            Some((e, hi, lo)) => ipv4_field(s@, i as int) == Some((e as int, seq![hi, lo])) && e
                <= n,
            None => ipv4_field(s@, i as int) is None,
        },
{
    let (e0, a) = match read_octet(s, n, i) {
        Some(x) => x,
        None => return None,
    };
    if !char_is(s, n, e0, '.') {
        return None;
    }
    let (e1, b) = match read_octet(s, n, e0 + 1) {
        Some(x) => x,
        None => return None,
    };
    if !char_is(s, n, e1, '.') {
        return None;
    }
    let (e2, c) = match read_octet(s, n, e1 + 1) {
        Some(x) => x,
        None => return None,
    };
    if !char_is(s, n, e2, '.') {
        return None;
    }
    let (e3, d) = match read_octet(s, n, e2 + 1) {
        Some(x) => x,
        None => return None,
    };
    Some((e3, a as u16 * 256 + b as u16, c as u16 * 256 + d as u16))
}

fn read_groups(s: &str, n: usize, pos: usize, k: usize, limit: usize) -> (r: (usize, Vec<u16>, bool))
    requires
        n == s@.len(),
        pos <= n,
        k <= limit <= 8,
    ensures
        (r.0 as int, r.1@, r.2) == groups_field(s@, pos as int, k as nat, limit as nat),
        r.0 <= n,
    decreases limit - k,
{
    if k >= limit {
        return (pos, Vec::new(), false);
    }
    if k > 0 && !char_is(s, n, pos, ':') {
        return (pos, Vec::new(), false);
    }
    let start = if k > 0 {
        pos + 1
    } else {
        pos
    };
    if k + 1 < limit {
        match read_ipv4(s, n, start) {
            Some((e, hi, lo)) => {
                let mut v: Vec<u16> = Vec::new();
                v.push(hi);
                v.push(lo);
                proof {
                    assert(v@ =~= seq![hi, lo]);
                }
                return (e, v, true);
            },
            None => {},
        }
    }
    match read_hex_group(s, n, start) {
        None => (pos, Vec::new(), false),
        Some((e, g)) => {
            let (re, mut rest, rv4) = read_groups(s, n, e, k + 1, limit);
            let ghost old_rest = rest@;
            rest.insert(0, g);
            proof {
                assert(rest@ =~= seq![g] + old_rest);
            }
            (re, rest, rv4)
        },
    }
}

fn read_ipv6(s: &str, n: usize, i: usize) -> (r: Option<(usize, Vec<u16>)>)
    requires
        n == s@.len(),
        i <= n,
    ensures
        match r {
            Some((e, v)) => ipv6_field(s@, i as int) == Some((e as int, v@)) && e <= n,
            None => ipv6_field(s@, i as int) is None,
        },
{
    let (he, mut head, head_v4) = read_groups(s, n, i, 0, 8);
    proof {
        lemma_groups_len(s@, i as int, 0, 8);
    }
    if head.len() == 8 {
        return Some((he, head));
    }
    if head_v4 {
        return None;
    }
    if !(char_is(s, n, he, ':') && char_is(s, n, he + 1, ':')) {
        return None;
    }
    let limit: usize = 7 - head.len();
    let (te, tail, _) = read_groups(s, n, he + 2, 0, limit);
    proof {
        lemma_groups_len(s@, he + 2, 0, limit as nat);
    }
    let ghost head0 = head@;
    let zeros: usize = 8 - head.len() - tail.len();
    let mut z: usize = 0;
    while z < zeros
        invariant
            z <= zeros,
            head@ =~= head0 + Seq::new(z as nat, |j: int| 0u16),
        decreases zeros - z,
    {
        head.push(0);
        z = z + 1;
    }
    let mut t: usize = 0;
    while t < tail.len()
        invariant
            t <= tail@.len(),
            head@ =~= head0 + Seq::new(zeros as nat, |j: int| 0u16) + tail@.subrange(0, t as int),
        decreases tail@.len() - t,
    {
        head.push(tail[t]);
        t = t + 1;
    }
    proof {
        assert(tail@.subrange(0, tail@.len() as int) =~= tail@);
    }
    Some((te, head))
}

fn read_scope(s: &str, n: usize, p: usize) -> (r: (usize, u32))
    requires
        n == s@.len(),
        p <= n,
    ensures
        (r.0 as int, r.1) == scope_field(s@, p as int),
        r.0 <= n,
{
    if !char_is(s, n, p, '%') {
        return (p, 0);
    }
    let e = digit_run_end(s, n, p + 1);
    proof {
        lemma_run_end(s@, p + 1);
    }
    if e == p + 1 {
        return (p, 0);
    }
    match field_value(s, n, p + 1, e, 0xffff_ffff) {
        Some(v) => (e, v as u32),
        None => (p, 0),
    }
}

/// Parses `[ipv6%scope]:port` text (the scope part optional); `None` for any
/// other text.
fn parse_v6(s: &str) -> (r: Option<SocketAddress>)
    ensures
        r == v6_address_of(s@),
{
    let n = s.unicode_len();
    if !char_is(s, n, 0, '[') {
        return None;
    }
    let (e, segs) = match read_ipv6(s, n, 1) {
        Some(x) => x,
        None => return None,
    };
    let (e2, scope_id) = read_scope(s, n, e);
    if !(char_is(s, n, e2, ']') && char_is(s, n, e2 + 1, ':')) {
        return None;
    }
    let pe = digit_run_end(s, n, e2 + 2);
    proof {
        lemma_run_end(s@, e2 + 2);
    }
    if pe != n {
        return None;
    }
    let port = match port_value(s, n, e2 + 2, n) {
        Some(x) => x,
        None => return None,
    };
    proof {
        lemma_groups_len(s@, 1, 0, 8);
    }
    let segments = Segments(
        segs[0],
        segs[1],
        segs[2],
        segs[3],
        segs[4],
        segs[5],
        segs[6],
        segs[7],
    );
    Some(SocketAddress::V6 { segments, flowinfo: 0, scope_id, port })
}

/// Parses a socket address written as std's `SocketAddr` accepts it:
/// `a.b.c.d:port`, or `[ipv6]:port` where the IPv6 address may compress zero
/// groups with `::`, may end in a dotted IPv4 address, and may carry a
/// `%scope` suffix. `None` for any other text.
pub fn parse_socket_addr(s: &str) -> (r: Option<SocketAddress>)
    ensures
        r == socket_address_of(s@),
{
    match parse_v4(s) {
        Some(a) => Some(a),
        None => parse_v6(s),
    }
}

} // verus!
