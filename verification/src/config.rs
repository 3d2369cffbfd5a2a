//! Cluster configuration: a line-oriented `key=value` text format.
//!
//! Each non-blank line is `key=value` with optional surrounding whitespace;
//! a line whose first non-blank byte is `#` is a comment. `self` names this
//! peer's signed identifier, `port` the 16-bit listen port, and any signed
//! integer key maps a peer id to an IPv4 `a.b.c.d:port` address. A duplicate
//! key is not an error: the later line wins.

use vstd::prelude::*;
use vstd::slice::{slice_index_get, slice_subrange};

verus! {

/// An IPv4 socket address: four octets and a port.
#[derive(Clone, Copy, PartialEq, Eq, Structural, Debug)]
pub struct PeerAddr {
    pub a: u8,
    pub b: u8,
    pub c: u8,
    pub d: u8,
    pub port: u16,
}

/// Why a line failed to parse.
#[derive(Clone, Copy, PartialEq, Eq, Structural, Debug)]
pub enum ParseReason {
    /// The line has no `=` or more than one.
    BadLine,
    /// The `self` value is not a signed 32-bit integer.
    BadSelfId,
    /// The `port` value is not a 16-bit unsigned integer.
    BadPort,
    /// The key is neither `self`, `port`, nor a signed 32-bit integer.
    BadPeerId,
    /// The value of a peer entry is not an IPv4 `a.b.c.d:port` address.
    BadAddr,
}

/// Which required field the file lacks.
#[derive(Clone, Copy, PartialEq, Eq, Structural, Debug)]
pub enum MissingField {
    /// No `self` line.
    SelfId,
    /// No `port` line.
    Port,
    /// No address entry for the `self` identifier.
    SelfAddr,
}

/// Why a configuration could not be produced.
#[derive(Clone, Copy, PartialEq, Eq, Structural, Debug)]
pub enum ConfigError {
    /// The file could not be read at all.
    Io,
    /// A line is malformed; carries the 1-based line number.
    Parse(usize, ParseReason),
    /// A required field is absent.
    Missing(MissingField),
}

// ---------------------------------------------------------------------------
// Whitespace trimming
// ---------------------------------------------------------------------------

/// ASCII whitespace that may surround a key or value within a line.
pub open spec fn is_space(c: u8) -> bool {
    c == 32 || c == 9 || c == 13 || c == 11 || c == 12
}

/// The sequence with its leading whitespace removed.
pub open spec fn trim_front(s: Seq<u8>) -> Seq<u8>
    decreases s.len(),
{
    if s.len() > 0 && is_space(s[0]) {
        trim_front(s.skip(1))
    } else {
        s
    }
}

/// The sequence with its trailing whitespace removed.
pub open spec fn trim_back(s: Seq<u8>) -> Seq<u8>
    decreases s.len(),
{
    if s.len() > 0 && is_space(s.last()) {
        trim_back(s.drop_last())
    } else {
        s
    }
}

/// The sequence with whitespace removed from both ends.
pub open spec fn spec_trim(s: Seq<u8>) -> Seq<u8> {
    trim_back(trim_front(s))
}

/// Whether the byte at `i` is whitespace.
fn space_at(s: &[u8], i: usize) -> (r: bool)
    requires
        i < s@.len(),
    ensures
        r == is_space(s@[i as int]),
{
    let c = *slice_index_get(s, i);
    c == 32 || c == 9 || c == 13 || c == 11 || c == 12
}

/// The bounds of the trimmed middle of a slice: `s[lo..hi]` is `s` without
/// its surrounding whitespace.
fn trim_bounds(s: &[u8]) -> (r: (usize, usize))
    ensures
        r.0 <= r.1 <= s@.len(),
        s@.subrange(r.0 as int, r.1 as int) == spec_trim(s@),
{
    let mut lo: usize = 0;
    proof {
        assert(s@.skip(0) =~= s@);
    }
    while lo < s.len() && space_at(s, lo)
        invariant
            lo <= s@.len(),
            trim_front(s@) == trim_front(s@.skip(lo as int)),
        decreases s@.len() - lo,
    {
        proof {
            assert(s@.skip(lo as int).skip(1) =~= s@.skip(lo as int + 1));
        }
        lo = lo + 1;
    }
    proof {
        assert(trim_front(s@) == s@.skip(lo as int));
    }
    let mut hi: usize = s.len();
    while hi > lo && space_at(s, hi - 1)
        invariant
            lo <= hi <= s@.len(),
            trim_front(s@) == s@.skip(lo as int),
            trim_back(s@.skip(lo as int)) == trim_back(s@.subrange(lo as int, hi as int)),
        decreases hi,
    {
        proof {
            assert(s@.subrange(lo as int, hi as int).drop_last() =~= s@.subrange(
                lo as int,
                hi as int - 1,
            ));
        }
        hi = hi - 1;
    }
    proof {
        if hi == lo {
            assert(s@.subrange(lo as int, hi as int) =~= Seq::<u8>::empty());
        }
        assert(trim_back(s@.subrange(lo as int, hi as int)) == s@.subrange(lo as int, hi as int));
    }
    (lo, hi)
}

// ---------------------------------------------------------------------------
// Finding a byte
// ---------------------------------------------------------------------------

/// The index of the first occurrence of `c` in `s`, or -1 if absent.
pub open spec fn first_pos(s: Seq<u8>, c: u8) -> int
    decreases s.len(),
{
    if s.len() == 0 {
        -1
    } else if s[0] == c {
        0
    } else {
        let r = first_pos(s.skip(1), c);
        if r < 0 {
            -1
        } else {
            r + 1
        }
    }
}

/// What `first_pos` finds: -1 means the byte is absent; otherwise it is the
/// least index holding the byte.
pub proof fn lemma_first_pos(s: Seq<u8>, c: u8)
    ensures
        first_pos(s, c) == -1 ==> forall|i: int| 0 <= i < s.len() ==> s[i] != c,
        first_pos(s, c) >= 0 ==> first_pos(s, c) < s.len() && s[first_pos(s, c)] == c && forall|
            i: int,
        | 0 <= i < first_pos(s, c) ==> s[i] != c,
    decreases s.len(),
{
    if s.len() > 0 && s[0] != c {
        lemma_first_pos(s.skip(1), c);
        assert(forall|i: int| 1 <= i < s.len() ==> s[i] == s.skip(1)[i - 1]);
    }
}

/// Finds the first occurrence of `c` in `s`.
fn find_byte(s: &[u8], c: u8) -> (r: Option<usize>)
    ensures
        match r {
            Some(i) => i == first_pos(s@, c),
            None => first_pos(s@, c) == -1,
        },
{
    let mut i: usize = 0;
    while i < s.len()
        invariant
            i <= s@.len(),
            forall|j: int| 0 <= j < i ==> s@[j] != c,
        decreases s@.len() - i,
    {
        if *slice_index_get(s, i) == c {
            proof {
                lemma_first_pos(s@, c);
                let p = first_pos(s@, c);
                assert(s@[i as int] == c);
                assert(p >= 0);
                assert(p == i);
            }
            return Some(i);
        }
        i = i + 1;
    }
    proof {
        lemma_first_pos(s@, c);
        let p = first_pos(s@, c);
        assert(p < 0) by {
            if p >= 0 {
                assert(s@[p] == c);
            }
        }
    }
    None
}

// ---------------------------------------------------------------------------
// Unsigned digit strings
// ---------------------------------------------------------------------------

/// ASCII decimal digit.
pub open spec fn is_digit(c: u8) -> bool {
    48 <= c <= 57
}

/// All bytes are decimal digits.
pub open spec fn all_digits(s: Seq<u8>) -> bool {
    forall|i: int| 0 <= i < s.len() ==> is_digit(#[trigger] s[i])
}

/// The number a digit string denotes.
pub open spec fn digits_val(s: Seq<u8>) -> int
    decreases s.len(),
{
    if s.len() == 0 {
        0
    } else {
        digits_val(s.drop_last()) * 10 + (s.last() - 48)
    }
}

/// A digit string denotes a non-negative number.
pub proof fn lemma_digits_val_nonneg(s: Seq<u8>)
    requires
        all_digits(s),
    ensures
        digits_val(s) >= 0,
    decreases s.len(),
{
    if s.len() > 0 {
        assert(all_digits(s.drop_last()));
        lemma_digits_val_nonneg(s.drop_last());
    }
}

/// A digit string denotes at least what any of its prefixes denotes.
pub proof fn lemma_digits_val_prefix(s: Seq<u8>, k: int)
    requires
        all_digits(s),
        0 <= k <= s.len(),
    ensures
        digits_val(s.take(k)) <= digits_val(s),
    decreases s.len() - k,
{
    if k < s.len() {
        assert(all_digits(s.take(k)));
        lemma_digits_val_nonneg(s.take(k));
        assert(s.take(k + 1).drop_last() =~= s.take(k));
        assert(s.take(k + 1).last() == s[k]);
        assert(digits_val(s.take(k + 1)) == digits_val(s.take(k)) * 10 + (s[k] - 48));
        lemma_digits_val_prefix(s, k + 1);
    } else {
        assert(s.take(k) =~= s);
    }
}

/// A non-empty digit string, as the `port` value and each address part use.
pub open spec fn valid_digits(s: Seq<u8>) -> bool {
    s.len() > 0 && all_digits(s)
}

/// Reads a digit string as a number, up to 2^32 - 1. `None` means the
/// input is not a non-empty digit string, or denotes something larger.
fn parse_digits(s: &[u8]) -> (r: Option<u64>)
    ensures
        match r {
            Some(v) => valid_digits(s@) && v == digits_val(s@) && v <= 0xffffffff,
            None => !valid_digits(s@) || digits_val(s@) > 0xffffffff,
        },
{
    if s.len() == 0 {
        return None;
    }
    let mut acc: u64 = 0;
    let mut i: usize = 0;
    while i < s.len()
        invariant
            i <= s@.len(),
            s@.len() > 0,
            acc == digits_val(s@.take(i as int)),
            acc <= 0xffffffff,
            all_digits(s@.take(i as int)),
        decreases s@.len() - i,
    {
        let c = *slice_index_get(s, i);
        if c < 48 || c > 57 {
            proof {
                assert(!is_digit(s@[i as int]));
                assert(!all_digits(s@));
            }
            return None;
        }
        proof {
            assert(s@.take(i as int + 1).drop_last() =~= s@.take(i as int));
            assert(s@.take(i as int + 1).last() == s@[i as int]);
        }
        let d: u64 = (c - 48) as u64;
        if acc > (0xffffffffu64 - d) / 10 {
            proof {
                assert(digits_val(s@.take(i as int + 1)) == acc * 10 + d);
                assert(acc * 10 + d > 0xffffffff) by (nonlinear_arith)
                    requires
                        acc > (0xffffffffu64 - d) / 10 && d <= 9 && acc >= 0,
                ;
                if all_digits(s@) {
                    lemma_digits_val_prefix(s@, i as int + 1);
                }
            }
            return None;
        }
        proof {
            assert(acc * 10 + d <= 0xffffffff) by (nonlinear_arith)
        requires
                    acc <= (0xffffffffu64 - d) / 10 && d <= 9 && acc >= 0,
            ;
        }
        acc = acc * 10 + d;
        i = i + 1;
    }
    proof {
        assert(s@.take(s@.len() as int) =~= s@);
    }
    Some(acc)
}

// ---------------------------------------------------------------------------
// Signed 32-bit integers (peer ids and the `self` value)
// ---------------------------------------------------------------------------

/// The digit part of a signed literal: everything after an optional sign.
pub open spec fn signed_body(s: Seq<u8>) -> Seq<u8> {
    if s.len() > 0 && (s[0] == 43 || s[0] == 45) {
        s.skip(1)
    } else {
        s
    }
}

/// Whether a signed literal carries a minus sign.
pub open spec fn signed_neg(s: Seq<u8>) -> bool {
    s.len() > 0 && s[0] == 45
}

/// A signed 32-bit integer literal: an optional `+` or `-`, then digits,
/// denoting a value within `i32` range.
pub open spec fn valid_i32(s: Seq<u8>) -> bool {
    &&& valid_digits(signed_body(s))
    &&& (if signed_neg(s) {
        digits_val(signed_body(s)) <= 0x80000000
    } else {
        digits_val(signed_body(s)) <= 0x7fffffff
    })
}

/// The value of a signed 32-bit integer literal.
pub open spec fn i32_of(s: Seq<u8>) -> int {
    if signed_neg(s) {
        -digits_val(signed_body(s))
    } else {
        digits_val(signed_body(s))
    }
}

/// Reads a signed 32-bit integer literal.
fn parse_i32(s: &[u8]) -> (r: Option<i32>)
    ensures
        match r {
            Some(v) => valid_i32(s@) && v == i32_of(s@),
            None => !valid_i32(s@),
        },
{
    if s.len() == 0 {
        return None;
    }
    let c0 = *slice_index_get(s, 0);
    let neg = c0 == 45;
    let body: &[u8] = if c0 == 43 || c0 == 45 {
        slice_subrange(s, 1, s.len())
    } else {
        s
    };
    proof {
        assert(body@ == signed_body(s@));
    }
    match parse_digits(body) {
        None => {
            proof {
                if digits_val(signed_body(s@)) > 0xffffffff {
                    assert(!valid_i32(s@));
                }
            }
            None
        },
        Some(v) => {
            if neg {
                if v > 0x80000000 {
                    None
                } else if v == 0x80000000 {
                    Some(i32::MIN)
                } else {
                    Some(-(v as i32))
                }
            } else {
                if v > 0x7fffffff {
                    None
                } else {
                    Some(v as i32)
                }
            }
        },
    }
}

/// A `u16` literal as the `port` key accepts: an optional `+`, then digits,
/// denoting a value of at most 65535.
pub open spec fn valid_u16(s: Seq<u8>) -> bool {
    &&& !signed_neg(s)
    &&& valid_digits(signed_body(s))
    &&& digits_val(signed_body(s)) <= 0xffff
}

/// The value of a `u16` literal.
pub open spec fn u16_of(s: Seq<u8>) -> int {
    digits_val(signed_body(s))
}

/// Reads a `u16` literal.
fn parse_u16(s: &[u8]) -> (r: Option<u16>)
    ensures
        match r {
            Some(v) => valid_u16(s@) && v == u16_of(s@),
            None => !valid_u16(s@),
        },
{
    if s.len() == 0 {
        return None;
    }
    let c0 = *slice_index_get(s, 0);
    if c0 == 45 {
        return None;
    }
    let body: &[u8] = if c0 == 43 {
        slice_subrange(s, 1, s.len())
    } else {
        s
    };
    proof {
        assert(body@ == signed_body(s@));
    }
    match parse_digits(body) {
        None => {
            proof {
                if digits_val(signed_body(s@)) > 0xffffffff {
                    assert(!valid_u16(s@));
                }
            }
            None
        },
        Some(v) => {
            if v > 0xffff {
                None
            } else {
                Some(v as u16)
            }
        },
    }
}

// ---------------------------------------------------------------------------
// IPv4 socket addresses
// ---------------------------------------------------------------------------

/// One dotted-quad group: digits denoting at most 255, with no leading zero.
pub open spec fn valid_octet(s: Seq<u8>) -> bool {
    &&& valid_digits(s)
    &&& (s.len() > 1 ==> s[0] != 48)
    &&& digits_val(s) <= 255
}

/// The port part of an address: digits denoting at most 65535, with no
/// leading zero.
pub open spec fn valid_port_part(s: Seq<u8>) -> bool {
    &&& valid_digits(s)
    &&& (s.len() > 1 ==> s[0] != 48)
    &&& digits_val(s) <= 0xffff
}

/// Reads `a.b.c.d:port`: four octet groups, one colon, a port. Anything
/// else — a missing dot or colon, a second colon or dot, an out-of-range
/// or zero-padded number — is no address.
pub open spec fn spec_parse_addr(s: Seq<u8>) -> Option<PeerAddr> {
    let cp = first_pos(s, 58);
    if cp < 0 {
        None
    } else {
        let ip = s.take(cp);
        let ps = s.skip(cp + 1);
        if first_pos(ps, 58) >= 0 {
            None
        } else {
            let p1 = first_pos(ip, 46);
            if p1 < 0 {
                None
            } else {
                let g1 = ip.take(p1);
                let r1 = ip.skip(p1 + 1);
                let p2 = first_pos(r1, 46);
                if p2 < 0 {
                    None
                } else {
                    let g2 = r1.take(p2);
                    let r2 = r1.skip(p2 + 1);
                    let p3 = first_pos(r2, 46);
                    if p3 < 0 {
                        None
                    } else {
                        let g3 = r2.take(p3);
                        let g4 = r2.skip(p3 + 1);
                        if first_pos(g4, 46) >= 0 {
                            None
                        } else if valid_octet(g1) && valid_octet(g2) && valid_octet(g3)
                            && valid_octet(g4) && valid_port_part(ps) {
                            Some(
                                PeerAddr {
                                    a: digits_val(g1) as u8,
                                    b: digits_val(g2) as u8,
                                    c: digits_val(g3) as u8,
                                    d: digits_val(g4) as u8,
                                    port: digits_val(ps) as u16,
                                },
                            )
                        } else {
                            None
                        }
                    }
                }
            }
        }
    }
}

/// Reads one dotted-quad group.
fn parse_octet(s: &[u8]) -> (r: Option<u8>)
    ensures
        match r {
            Some(v) => valid_octet(s@) && v == digits_val(s@),
            None => !valid_octet(s@),
        },
{
    if s.len() > 1 && *slice_index_get(s, 0) == 48 {
        return None;
    }
    match parse_digits(s) {
        None => None,
        Some(v) => {
            if v > 255 {
                None
            } else {
                Some(v as u8)
            }
        },
    }
}

/// Reads the port part of an address.
fn parse_port_part(s: &[u8]) -> (r: Option<u16>)
    ensures
        match r {
            Some(v) => valid_port_part(s@) && v == digits_val(s@),
            None => !valid_port_part(s@),
        },
{
    if s.len() > 1 && *slice_index_get(s, 0) == 48 {
        return None;
    }
    match parse_digits(s) {
        None => None,
        Some(v) => {
            if v > 0xffff {
                None
            } else {
                Some(v as u16)
            }
        },
    }
}

/// Reads an IPv4 socket address `a.b.c.d:port`.
fn parse_addr(s: &[u8]) -> (r: Option<PeerAddr>)
    ensures
        r == spec_parse_addr(s@),
{
    let cp = match find_byte(s, 58) {
        None => {
            return None;
        },
        Some(i) => i,
    };
    proof {
        lemma_first_pos(s@, 58);
    }
    let slen = s.len();
    let ip = slice_subrange(s, 0, cp);
    let ps = slice_subrange(s, cp + 1, slen);
    proof {
        assert(ip@ =~= s@.take(cp as int));
        assert(ps@ =~= s@.skip(cp as int + 1));
    }
    if find_byte(ps, 58).is_some() {
        return None;
    }
    let p1 = match find_byte(ip, 46) {
        None => {
            return None;
        },
        Some(i) => i,
    };
    proof {
        lemma_first_pos(ip@, 46);
    }
    let iplen = ip.len();
    let g1 = slice_subrange(ip, 0, p1);
    let r1 = slice_subrange(ip, p1 + 1, iplen);
    proof {
        assert(g1@ =~= ip@.take(p1 as int));
        assert(r1@ =~= ip@.skip(p1 as int + 1));
    }
    let p2 = match find_byte(r1, 46) {
        None => {
            return None;
        },
        Some(i) => i,
    };
    proof {
        lemma_first_pos(r1@, 46);
    }
    let r1len = r1.len();
    let g2 = slice_subrange(r1, 0, p2);
    let r2 = slice_subrange(r1, p2 + 1, r1len);
    proof {
        assert(g2@ =~= r1@.take(p2 as int));
        assert(r2@ =~= r1@.skip(p2 as int + 1));
    }
    let p3 = match find_byte(r2, 46) {
        None => {
            return None;
        },
        Some(i) => i,
    };
    proof {
        lemma_first_pos(r2@, 46);
    }
    let r2len = r2.len();
    let g3 = slice_subrange(r2, 0, p3);
    let g4 = slice_subrange(r2, p3 + 1, r2len);
    proof {
        assert(g3@ =~= r2@.take(p3 as int));
        assert(g4@ =~= r2@.skip(p3 as int + 1));
    }
    if find_byte(g4, 46).is_some() {
        return None;
    }
    let a = match parse_octet(g1) {
        None => {
            return None;
        },
        Some(v) => v,
    };
    let b = match parse_octet(g2) {
        None => {
            return None;
        },
        Some(v) => v,
    };
    let c = match parse_octet(g3) {
        None => {
            return None;
        },
        Some(v) => v,
    };
    let d = match parse_octet(g4) {
        None => {
            return None;
        },
        Some(v) => v,
    };
    let port = match parse_port_part(ps) {
        None => {
            return None;
        },
        Some(v) => v,
    };
    Some(PeerAddr { a, b, c, d, port })
}

// ---------------------------------------------------------------------------
// Lines
// ---------------------------------------------------------------------------

/// The file's lines: the pieces between newline bytes. A trailing newline
/// contributes one final empty (blank) line.
pub open spec fn split_lines(data: Seq<u8>) -> Seq<Seq<u8>>
    decreases data.len(),
{
    let p = first_pos(data, 10);
    if 0 <= p < data.len() {
        seq![data.take(p)] + split_lines(data.skip(p + 1))
    } else {
        seq![data]
    }
}

/// A file of n bytes has at most n + 1 lines.
pub proof fn lemma_split_lines_count(data: Seq<u8>)
    ensures
        1 <= split_lines(data).len() <= data.len() + 1,
    decreases data.len(),
{
    let p = first_pos(data, 10);
    if p >= 0 {
        lemma_first_pos(data, 10);
        lemma_split_lines_count(data.skip(p + 1));
    }
}

/// What one line means.
#[derive(Clone, Copy, PartialEq, Eq, Structural, Debug)]
pub enum LineClass {
    /// Nothing but whitespace.
    Blank,
    /// First non-blank byte is `#`.
    Comment,
    /// `self=<id>`.
    SetSelf(i32),
    /// `port=<port>`.
    SetPort(u16),
    /// `<id>=<addr>`: one peer entry.
    Peer(i32, PeerAddr),
    /// A malformed line.
    Bad(ParseReason),
}

/// The bytes of the key `self`.
pub open spec fn key_self() -> Seq<u8> {
    seq![115u8, 101u8, 108u8, 102u8]
}

/// The bytes of the key `port`.
pub open spec fn key_port() -> Seq<u8> {
    seq![112u8, 111u8, 114u8, 116u8]
}

/// Classifies one raw line: blank, comment, a `self`, `port` or peer
/// assignment, or malformed with the reason.
pub open spec fn classify(l: Seq<u8>) -> LineClass {
    let t = spec_trim(l);
    if t.len() == 0 {
        LineClass::Blank
    } else if t[0] == 35 {
        LineClass::Comment
    } else {
        let p = first_pos(t, 61);
        if p < 0 {
            LineClass::Bad(ParseReason::BadLine)
        } else if first_pos(t.skip(p + 1), 61) >= 0 {
            LineClass::Bad(ParseReason::BadLine)
        } else {
            let key = spec_trim(t.take(p));
            let val = spec_trim(t.skip(p + 1));
            if key == key_self() {
                if valid_i32(val) {
                    LineClass::SetSelf(i32_of(val) as i32)
                } else {
                    LineClass::Bad(ParseReason::BadSelfId)
                }
            } else if key == key_port() {
                if valid_u16(val) {
                    LineClass::SetPort(u16_of(val) as u16)
                } else {
                    LineClass::Bad(ParseReason::BadPort)
                }
            } else if valid_i32(key) {
                match spec_parse_addr(val) {
                    Some(addr) => LineClass::Peer(i32_of(key) as i32, addr),
                    None => LineClass::Bad(ParseReason::BadAddr),
                }
            } else {
                LineClass::Bad(ParseReason::BadPeerId)
            }
        }
    }
}

/// Classifies one raw line of the file.
fn classify_line(l: &[u8]) -> (r: LineClass)
    ensures
        r == classify(l@),
{
    let (lo, hi) = trim_bounds(l);
    let t = slice_subrange(l, lo, hi);
    proof {
        assert(t@ == spec_trim(l@));
    }
    if t.len() == 0 {
        return LineClass::Blank;
    }
    if *slice_index_get(t, 0) == 35 {
        return LineClass::Comment;
    }
    let tlen = t.len();
    let p = match find_byte(t, 61) {
        None => {
            return LineClass::Bad(ParseReason::BadLine);
        },
        Some(i) => i,
    };
    proof {
        lemma_first_pos(t@, 61);
    }
    let after = slice_subrange(t, p + 1, tlen);
    proof {
        assert(after@ =~= t@.skip(p as int + 1));
    }
    if find_byte(after, 61).is_some() {
        return LineClass::Bad(ParseReason::BadLine);
    }
    let keyraw = slice_subrange(t, 0, p);
    proof {
        assert(keyraw@ =~= t@.take(p as int));
    }
    let (klo, khi) = trim_bounds(keyraw);
    let key = slice_subrange(keyraw, klo, khi);
    let (vlo, vhi) = trim_bounds(after);
    let val = slice_subrange(after, vlo, vhi);
    proof {
        assert(key@ == spec_trim(t@.take(p as int)));
        assert(val@ == spec_trim(t@.skip(p as int + 1)));
        assert(key_self().len() == 4 && key_self()[0] == 115 && key_self()[1] == 101 && key_self()[2]
            == 108 && key_self()[3] == 102);
        assert(key_port().len() == 4 && key_port()[0] == 112 && key_port()[1] == 111 && key_port()[2]
            == 114 && key_port()[3] == 116);
    }
    let is_self = key.len() == 4 && *slice_index_get(key, 0) == 115 && *slice_index_get(key, 1)
        == 101 && *slice_index_get(key, 2) == 108 && *slice_index_get(key, 3) == 102;
    proof {
        if is_self {
            assert(key@ =~= key_self());
        }
    }
    if is_self {
        return match parse_i32(val) {
            Some(v) => LineClass::SetSelf(v),
            None => LineClass::Bad(ParseReason::BadSelfId),
        };
    }
    let is_port = key.len() == 4 && *slice_index_get(key, 0) == 112 && *slice_index_get(key, 1)
        == 111 && *slice_index_get(key, 2) == 114 && *slice_index_get(key, 3) == 116;
    proof {
        if is_port {
            assert(key@ =~= key_port());
        }
        assert(!is_self ==> key@ != key_self());
        assert(!is_port ==> key@ != key_port());
    }
    if is_port {
        return match parse_u16(val) {
            Some(v) => LineClass::SetPort(v),
            None => LineClass::Bad(ParseReason::BadPort),
        };
    }
    match parse_i32(key) {
        None => LineClass::Bad(ParseReason::BadPeerId),
        Some(id) => match parse_addr(val) {
            Some(addr) => LineClass::Peer(id, addr),
            None => LineClass::Bad(ParseReason::BadAddr),
        },
    }
}

// ---------------------------------------------------------------------------
// Folding the lines into a configuration
// ---------------------------------------------------------------------------

/// The value of the last `self` line, if any: a later line wins.
pub open spec fn self_of(lines: Seq<Seq<u8>>) -> Option<i32>
    decreases lines.len(),
{
    if lines.len() == 0 {
        None
    } else {
        match classify(lines.last()) {
            LineClass::SetSelf(v) => Some(v),
            _ => self_of(lines.drop_last()),
        }
    }
}

/// The value of the last `port` line, if any: a later line wins.
pub open spec fn port_of(lines: Seq<Seq<u8>>) -> Option<u16>
    decreases lines.len(),
{
    if lines.len() == 0 {
        None
    } else {
        match classify(lines.last()) {
            LineClass::SetPort(v) => Some(v),
            _ => port_of(lines.drop_last()),
        }
    }
}

/// The index of the first entry with the given peer id, or -1 if absent.
pub open spec fn first_key_pos(s: Seq<(i32, PeerAddr)>, id: i32) -> int
    decreases s.len(),
{
    if s.len() == 0 {
        -1
    } else if s[0].0 == id {
        0
    } else {
        let r = first_key_pos(s.skip(1), id);
        if r < 0 {
            -1
        } else {
            r + 1
        }
    }
}

/// What `first_key_pos` finds: -1 means the id is absent; otherwise it is
/// the least index carrying the id.
pub proof fn lemma_first_key_pos(s: Seq<(i32, PeerAddr)>, id: i32)
    ensures
        first_key_pos(s, id) == -1 ==> forall|i: int| 0 <= i < s.len() ==> (#[trigger] s[i]).0
            != id,
        first_key_pos(s, id) >= 0 ==> first_key_pos(s, id) < s.len() && s[first_key_pos(s, id)].0
            == id && forall|i: int| 0 <= i < first_key_pos(s, id) ==> (#[trigger] s[i]).0 != id,
    decreases s.len(),
{
    if s.len() > 0 && s[0].0 != id {
        lemma_first_key_pos(s.skip(1), id);
        assert(forall|i: int| 1 <= i < s.len() ==> s[i] == s.skip(1)[i - 1]);
    }
}

/// The address the entry table records for `id`, if any.
pub open spec fn lookup_entries(s: Seq<(i32, PeerAddr)>, id: i32) -> Option<PeerAddr> {
    let k = first_key_pos(s, id);
    if k >= 0 {
        Some(s[k].1)
    } else {
        None
    }
}

/// Sets the entry for `id`: replaces the entry already carrying `id`, or
/// appends a new one. This is how a later line wins over an earlier one.
pub open spec fn upsert(s: Seq<(i32, PeerAddr)>, id: i32, addr: PeerAddr) -> Seq<(i32, PeerAddr)> {
    let k = first_key_pos(s, id);
    if k >= 0 {
        s.update(k, (id, addr))
    } else {
        s.push((id, addr))
    }
}

/// The peer entries the lines build up, in order of first appearance,
/// each id holding the address of its last line.
pub open spec fn entries_of(lines: Seq<Seq<u8>>) -> Seq<(i32, PeerAddr)>
    decreases lines.len(),
{
    if lines.len() == 0 {
        Seq::empty()
    } else {
        match classify(lines.last()) {
            LineClass::Peer(id, addr) => upsert(entries_of(lines.drop_last()), id, addr),
            _ => entries_of(lines.drop_last()),
        }
    }
}

/// No two entries carry the same peer id.
pub open spec fn unique_keys(s: Seq<(i32, PeerAddr)>) -> bool {
    forall|i: int, j: int| 0 <= i < j < s.len() ==> (#[trigger] s[i]).0 != (#[trigger] s[j]).0
}

/// `upsert` keeps the peer ids unique.
pub proof fn lemma_upsert_unique(s: Seq<(i32, PeerAddr)>, id: i32, addr: PeerAddr)
    requires
        unique_keys(s),
    ensures
        unique_keys(upsert(s, id, addr)),
{
    lemma_first_key_pos(s, id);
    let k = first_key_pos(s, id);
    if k >= 0 {
        let t = s.update(k, (id, addr));
        assert forall|i: int, j: int| 0 <= i < j < t.len() implies t[i].0 != t[j].0 by {
            assert(s[k].0 == id);
        }
    } else {
        let t = s.push((id, addr));
        assert forall|i: int, j: int| 0 <= i < j < t.len() implies t[i].0 != t[j].0 by {
            if j == s.len() {
                assert(s[i].0 != id);
            }
        }
    }
}

/// The entries the lines build up have unique peer ids.
pub proof fn lemma_entries_unique(lines: Seq<Seq<u8>>)
    ensures
        unique_keys(entries_of(lines)),
    decreases lines.len(),
{
    if lines.len() > 0 {
        lemma_entries_unique(lines.drop_last());
        match classify(lines.last()) {
            LineClass::Peer(id, addr) => {
                lemma_upsert_unique(entries_of(lines.drop_last()), id, addr);
            },
            _ => {},
        }
    }
}

/// The 1-based number and reason of the first malformed line, if any.
pub open spec fn first_bad(lines: Seq<Seq<u8>>) -> Option<(int, ParseReason)>
    decreases lines.len(),
{
    if lines.len() == 0 {
        None
    } else {
        match classify(lines[0]) {
            LineClass::Bad(why) => Some((1, why)),
            _ => match first_bad(lines.skip(1)) {
                Some((n, why)) => Some((n + 1, why)),
                None => None,
            },
        }
    }
}

/// A file whose every line is well formed has no first bad line.
pub proof fn lemma_first_bad_none(lines: Seq<Seq<u8>>)
    requires
        forall|j: int| 0 <= j < lines.len() ==> !(classify(#[trigger] lines[j]) is Bad),
    ensures
        first_bad(lines) is None,
    decreases lines.len(),
{
    if lines.len() > 0 {
        assert(forall|j: int| 0 <= j < lines.skip(1).len() ==> lines.skip(1)[j] == lines[j + 1]);
        lemma_first_bad_none(lines.skip(1));
    }
}

/// If the lines before `k` are well formed and line `k` is malformed,
/// the first bad line is `k`, counted 1-based.
pub proof fn lemma_first_bad_at(lines: Seq<Seq<u8>>, k: int, why: ParseReason)
    requires
        0 <= k < lines.len(),
        forall|j: int| 0 <= j < k ==> !(classify(#[trigger] lines[j]) is Bad),
        classify(lines[k]) == LineClass::Bad(why),
    ensures
        first_bad(lines) == Some((k + 1, why)),
    decreases k,
{
    if k == 0 {
    } else {
        assert(forall|j: int| 0 <= j < lines.skip(1).len() ==> lines.skip(1)[j] == lines[j + 1]);
        lemma_first_bad_at(lines.skip(1), k - 1, why);
    }
}

// ---------------------------------------------------------------------------
// The configuration itself
// ---------------------------------------------------------------------------

/// The cluster configuration: this peer's id, its listen port, and the
/// peer id -> address table.
#[derive(Clone, PartialEq, Eq, Debug)]
pub struct Config {
    /// This peer's identifier.
    pub self_id: i32,
    /// The port the inbound listener binds.
    pub port: u16,
    /// Peer id -> address entries, ids unique.
    pub peers: Vec<(i32, PeerAddr)>,
}

impl Config {
    /// The address recorded for a peer id, if any.
    pub open spec fn lookup(&self, id: i32) -> Option<PeerAddr> {
        lookup_entries(self.peers@, id)
    }

    /// Well-formed: ids unique, and this peer has an address.
    pub open spec fn wf(&self) -> bool {
        &&& unique_keys(self.peers@)
        &&& first_key_pos(self.peers@, self.self_id) >= 0
    }

    /// How many peer entries the table holds.
    pub fn peer_count(&self) -> (n: usize)
        ensures
            n == self.peers@.len(),
    {
        self.peers.len()
    }

    /// Looks a peer id up in the table.
    pub fn peer_addr(&self, id: i32) -> (r: Option<PeerAddr>)
        ensures
            r == self.lookup(id),
    {
        proof {
            lemma_first_key_pos(self.peers@, id);
        }
        let mut i: usize = 0;
        while i < self.peers.len()
            invariant
                i <= self.peers@.len(),
                forall|j: int| 0 <= j < i ==> (#[trigger] self.peers@[j]).0 != id,
            decreases self.peers@.len() - i,
        {
            let (k, addr) = self.peers[i];
            if k == id {
                proof {
                    lemma_first_key_pos(self.peers@, id);
                    assert(first_key_pos(self.peers@, id) == i);
                }
                return Some(addr);
            }
            i = i + 1;
        }
        proof {
            lemma_first_key_pos(self.peers@, id);
            let k = first_key_pos(self.peers@, id);
            if k >= 0 {
                assert(self.peers@[k].0 == id);
            }
        }
        None
    }
}

/// Finds the first entry carrying `id`.
fn find_key(peers: &Vec<(i32, PeerAddr)>, id: i32) -> (r: Option<usize>)
    ensures
        match r {
            Some(i) => i == first_key_pos(peers@, id),
            None => first_key_pos(peers@, id) == -1,
        },
{
    let mut i: usize = 0;
    while i < peers.len()
        invariant
            i <= peers@.len(),
            forall|j: int| 0 <= j < i ==> (#[trigger] peers@[j]).0 != id,
        decreases peers@.len() - i,
    {
        if peers[i].0 == id {
            proof {
                lemma_first_key_pos(peers@, id);
                let k = first_key_pos(peers@, id);
                assert(k >= 0);
                assert(k == i);
            }
            return Some(i);
        }
        i = i + 1;
    }
    proof {
        lemma_first_key_pos(peers@, id);
        let k = first_key_pos(peers@, id);
        if k >= 0 {
            assert(peers@[k].0 == id);
        }
    }
    None
}

/// Sets the entry for `id` in the table, replacing or appending.
fn vec_upsert(peers: &mut Vec<(i32, PeerAddr)>, id: i32, addr: PeerAddr)
    ensures
        final(peers)@ == upsert(old(peers)@, id, addr),
{
    match find_key(peers, id) {
        Some(i) => {
            proof {
                lemma_first_key_pos(peers@, id);
            }
            peers.set(i, (id, addr));
        },
        None => {
            peers.push((id, addr));
        },
    }
}

/// What `parse_config` returns for a given file, case by case: the first
/// malformed line's number and reason; or the missing field; or the
/// configuration the lines denote, later lines winning over earlier ones.
pub open spec fn parse_result_matches(data: Seq<u8>, r: Result<Config, ConfigError>) -> bool {
    let lines = split_lines(data);
    match r {
        Ok(c) => {
            &&& first_bad(lines) is None
            &&& self_of(lines) == Some(c.self_id)
            &&& port_of(lines) == Some(c.port)
            &&& c.peers@ == entries_of(lines)
            &&& c.wf()
        },
        Err(e) => match e {
            ConfigError::Parse(n, why) => first_bad(lines) == Some((n as int, why)),
            ConfigError::Missing(f) => {
                &&& first_bad(lines) is None
                &&& match f {
                    MissingField::SelfId => self_of(lines) is None,
                    MissingField::Port => self_of(lines) is Some && port_of(lines) is None,
                    MissingField::SelfAddr => self_of(lines) matches Some(sid) && port_of(lines)
                        is Some && first_key_pos(entries_of(lines), sid) == -1,
                }
            },
            ConfigError::Io => false,
        },
    }
}

/// Parses a configuration file held in memory.
///
/// Every line is read in order: blank lines and `#` comments are skipped,
/// `self` and `port` set the peer id and listen port, and an integer key
/// adds a peer address entry; on every duplicate key the later line wins.
/// The first malformed line stops the parse with its 1-based number. A
/// file with no `self` line, no `port` line, or no address entry for the
/// `self` id is rejected as incomplete.
#[verifier::rlimit(60)]
pub fn parse_config(data: &[u8]) -> (r: Result<Config, ConfigError>)
    requires
        data@.len() < usize::MAX,
    ensures
        parse_result_matches(data@, r),
{
    let ghost lines = split_lines(data@);
    proof {
        lemma_split_lines_count(data@);
    }
    let dlen = data.len();
    let mut pos: usize = 0;
    let mut k: usize = 0;
    let mut self_id: Option<i32> = None;
    let mut port: Option<u16> = None;
    let mut peers: Vec<(i32, PeerAddr)> = Vec::new();
    proof {
        assert(data@.skip(0) =~= data@);
        assert(lines.skip(0) =~= lines);
        assert(lines.take(0) =~= Seq::<Seq<u8>>::empty());
    }
    loop
        invariant_except_break
            pos <= dlen,
            dlen == data@.len() < usize::MAX,
            lines == split_lines(data@),
            1 <= lines.len() <= data@.len() + 1,
            k < lines.len(),
            split_lines(data@.skip(pos as int)) == lines.skip(k as int),
            self_id == self_of(lines.take(k as int)),
            port == port_of(lines.take(k as int)),
            peers@ == entries_of(lines.take(k as int)),
            forall|j: int| 0 <= j < k ==> !(classify(#[trigger] lines[j]) is Bad),
        ensures
            k == lines.len(),
            lines == split_lines(data@),
            self_id == self_of(lines.take(k as int)),
            port == port_of(lines.take(k as int)),
            peers@ == entries_of(lines.take(k as int)),
            forall|j: int| 0 <= j < k ==> !(classify(#[trigger] lines[j]) is Bad),
        decreases dlen - pos,
    {
        let rem = slice_subrange(data, pos, dlen);
        proof {
            assert(rem@ =~= data@.skip(pos as int));
            lemma_first_pos(rem@, 10);
        }
        let nl = find_byte(rem, 10);
        let end: usize = match nl {
            Some(i) => pos + i,
            None => dlen,
        };
        let line = slice_subrange(data, pos, end);
        proof {
            match nl {
                Some(i) => {
                    assert(rem@.take(i as int) =~= line@);
                    assert(rem@.skip(i as int + 1) =~= data@.skip(end as int + 1));
                    assert(split_lines(rem@) == seq![line@] + split_lines(
                        data@.skip(end as int + 1),
                    ));
                },
                None => {
                    assert(split_lines(rem@) == seq![rem@]);
                    assert(rem@ == line@);
                },
            }
            assert(lines.skip(k as int)[0] == line@);
            assert(lines[k as int] == line@);
        }
        let cls = classify_line(line);
        let ghost prefix = lines.take(k as int);
        let ghost prefix1 = lines.take(k as int + 1);
        proof {
            assert(prefix1.drop_last() =~= prefix);
            assert(prefix1.last() == lines[k as int]);
        }
        match cls {
            LineClass::Blank => {},
            LineClass::Comment => {},
            LineClass::SetSelf(v) => {
                self_id = Some(v);
            },
            LineClass::SetPort(v) => {
                port = Some(v);
            },
            LineClass::Peer(id, addr) => {
                vec_upsert(&mut peers, id, addr);
            },
            LineClass::Bad(why) => {
                proof {
                    lemma_first_bad_at(lines, k as int, why);
                }
                return Err(ConfigError::Parse(k + 1, why));
            },
        }
        proof {
            assert(self_id == self_of(prefix1));
            assert(port == port_of(prefix1));
            assert(peers@ == entries_of(prefix1));
        }
        match nl {
            Some(_) => {
                proof {
                    let s_next = split_lines(data@.skip(end as int + 1));
                    lemma_split_lines_count(data@.skip(end as int + 1));
                    assert(lines.skip(k as int) == seq![line@] + s_next);
                    assert((seq![line@] + s_next).skip(1) =~= s_next);
                    assert(lines.skip(k as int).skip(1) =~= lines.skip(k as int + 1));
                    assert(lines.skip(k as int + 1).len() >= 1);
                }
                pos = end + 1;
                k = k + 1;
            },
            None => {
                proof {
                    assert(lines.skip(k as int).len() == 1);
                    assert(k + 1 == lines.len());
                }
                k = k + 1;
                break ;
            },
        }
    }
    proof {
        assert(lines.take(k as int) =~= lines);
        lemma_first_bad_none(lines);
    }
    let sid = match self_id {
        None => {
            return Err(ConfigError::Missing(MissingField::SelfId));
        },
        Some(v) => v,
    };
    let pt = match port {
        None => {
            return Err(ConfigError::Missing(MissingField::Port));
        },
        Some(v) => v,
    };
    if find_key(&peers, sid).is_none() {
        return Err(ConfigError::Missing(MissingField::SelfAddr));
    }
    proof {
        lemma_entries_unique(lines);
    }
    Ok(Config { self_id: sid, port: pt, peers })
}

/// `upsert` sets the entry it names: afterwards the table records `addr`
/// for `id`.
pub proof fn lemma_upsert_sets(s: Seq<(i32, PeerAddr)>, id: i32, addr: PeerAddr)
    ensures
        lookup_entries(upsert(s, id, addr), id) == Some(addr),
{
    lemma_first_key_pos(s, id);
    let k = first_key_pos(s, id);
    if k >= 0 {
        let t = s.update(k, (id, addr));
        lemma_first_key_pos(t, id);
        let kt = first_key_pos(t, id);
        assert(t[k].0 == id);
        assert(kt >= 0);
        if kt < k {
            assert(t[kt] == s[kt]);
            assert(s[kt].0 != id);
        }
        assert(kt == k);
    } else {
        let t = s.push((id, addr));
        lemma_first_key_pos(t, id);
        let kt = first_key_pos(t, id);
        assert(t[s.len() as int].0 == id);
        assert(kt >= 0);
        if kt < s.len() {
            assert(t[kt] == s[kt]);
            assert(s[kt].0 != id);
        }
        assert(kt == s.len());
    }
}

/// `upsert` of one id leaves what the table records for every other id.
pub proof fn lemma_upsert_keeps(s: Seq<(i32, PeerAddr)>, id: i32, addr: PeerAddr, other: i32)
    requires
        other != id,
    ensures
        lookup_entries(upsert(s, id, addr), other) == lookup_entries(s, other),
{
    lemma_first_key_pos(s, id);
    lemma_first_key_pos(s, other);
    let k = first_key_pos(s, id);
    let p = first_key_pos(s, other);
    let t = upsert(s, id, addr);
    lemma_first_key_pos(t, other);
    let pt = first_key_pos(t, other);
    // Wherever the table changed — the replaced entry or the appended one —
    // the key is `id`, so the entries carrying `other` are untouched.
    assert(forall|j: int| 0 <= j < s.len() && j != k ==> t[j] == s[j]);
    if p < 0 {
        if pt >= 0 {
            assert(t[pt].0 == other);
            if pt < s.len() && pt != k {
                assert(s[pt].0 != other);
            }
        }
        assert(pt < 0);
    } else {
        assert(s[p].0 == other);
        assert(p != k);
        assert(t[p].0 == other);
        assert(pt >= 0);
        if pt < p {
            assert(t[pt].0 == other);
            if pt != k {
                assert(s[pt].0 != other);
            }
        }
        assert(pt == p);
        assert(t[p].1 == s[p].1);
    }
}

/// A later line wins: when line `k` assigns an address to a peer id and
/// no later line assigns that id again, the parsed table records exactly
/// that address for the id.
pub proof fn lemma_later_wins(lines: Seq<Seq<u8>>, k: int, id: i32, addr: PeerAddr)
    requires
        0 <= k < lines.len(),
        classify(lines[k]) == LineClass::Peer(id, addr),
        forall|j: int|
            k < j < lines.len() ==> (classify(#[trigger] lines[j]) matches LineClass::Peer(
                id2,
                a2,
            ) ==> id2 != id),
    ensures
        lookup_entries(entries_of(lines), id) == Some(addr),
    decreases lines.len(),
{
    let m = lines.len() - 1;
    assert(lines.last() == lines[m]);
    if k == m {
        lemma_upsert_sets(entries_of(lines.drop_last()), id, addr);
    } else {
        let front = lines.drop_last();
        assert(front[k] == lines[k]);
        assert(forall|j: int| k < j < front.len() ==> front[j] == lines[j]);
        lemma_later_wins(front, k, id, addr);
        match classify(lines.last()) {
            LineClass::Peer(id2, a2) => {
                assert(id2 != id);
                lemma_upsert_keeps(entries_of(front), id2, a2, id);
            },
            _ => {},
        }
    }
}

/// The parse is a function of the file alone: any two results that match
/// one file agree on the peer id, the port, and the whole peer table.
/// Parsing the same file twice therefore yields equal configurations.
pub proof fn lemma_parse_deterministic(data: Seq<u8>, c1: Config, c2: Config)
    requires
        parse_result_matches(data, Ok(c1)),
        parse_result_matches(data, Ok(c2)),
    ensures
        c1.self_id == c2.self_id,
        c1.port == c2.port,
        c1.peers@ == c2.peers@,
{
}

} // verus!
