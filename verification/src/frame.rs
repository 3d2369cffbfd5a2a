//! Wire framing: every message travels as a 4-byte big-endian unsigned
//! length followed by that many payload bytes. Payloads above 64 KiB are
//! a protocol violation and close the connection that sent them.

use vstd::prelude::*;
use vstd::arithmetic::div_mod::{
    lemma_div_denominator, lemma_div_is_ordered, lemma_fundamental_div_mod, lemma_small_mod,
};

verus! {

/// Largest payload a frame may carry, in bytes.
pub const MAX_PAYLOAD: usize = 65536;

/// The unsigned value of four big-endian bytes.
pub open spec fn be32(s: Seq<u8>) -> int
    recommends
        s.len() == 4,
{
    s[0] * 0x1000000 + s[1] * 0x10000 + s[2] * 0x100 + s[3]
}

/// The four big-endian bytes of a value below 2^32.
pub open spec fn be_bytes(n: int) -> Seq<u8>
    recommends
        0 <= n < 0x100000000,
{
    seq![
        (n / 0x1000000 % 0x100) as u8,
        (n / 0x10000 % 0x100) as u8,
        (n / 0x100 % 0x100) as u8,
        (n % 0x100) as u8,
    ]
}

/// A framed payload: the length header followed by the payload itself.
pub open spec fn spec_frame(p: Seq<u8>) -> Seq<u8>
    recommends
        p.len() <= MAX_PAYLOAD,
{
    be_bytes(p.len() as int) + p
}

/// The byte stream carrying the given payloads in order, each framed.
pub open spec fn frames_of(ps: Seq<Seq<u8>>) -> Seq<u8>
    decreases ps.len(),
{
    if ps.len() == 0 {
        Seq::empty()
    } else {
        spec_frame(ps[0]) + frames_of(ps.skip(1))
    }
}

/// Reading back the four bytes of a value below 2^32 recovers the value.
pub proof fn lemma_be_roundtrip(n: int)
    requires
        0 <= n < 0x100000000,
    ensures
        be32(be_bytes(n)) == n,
{
    let q1 = n / 0x100;
    let q2 = n / 0x10000;
    let q3 = n / 0x1000000;
    lemma_fundamental_div_mod(n, 0x100);
    lemma_div_denominator(n, 0x100, 0x100);
    lemma_fundamental_div_mod(q1, 0x100);
    lemma_div_denominator(n, 0x10000, 0x100);
    lemma_fundamental_div_mod(q2, 0x100);
    assert(n / 0x1000000 < 0x100) by (nonlinear_arith)
        requires
            0 <= n && n < 0x100000000,
    ;
    lemma_small_mod(q3 as nat, 0x100);
    assert(n == 0x1000000 * (n / 0x1000000 % 0x100) + 0x10000 * (n / 0x10000 % 0x100) + 0x100 * (
    n / 0x100 % 0x100) + n % 0x100);
}

/// Appending one framed payload to a stream of framed payloads.
pub proof fn lemma_frames_of_push(ps: Seq<Seq<u8>>, p: Seq<u8>)
    ensures
        frames_of(ps.push(p)) == frames_of(ps) + spec_frame(p),
    decreases ps.len(),
{
    let e = ps.push(p);
    if ps.len() == 0 {
        assert(e.skip(1) =~= Seq::<Seq<u8>>::empty());
        assert(e[0] == p);
        assert(frames_of(e) == spec_frame(p) + frames_of(Seq::<Seq<u8>>::empty()));
        assert(spec_frame(p) + Seq::<u8>::empty() =~= spec_frame(p));
        assert(Seq::<u8>::empty() + spec_frame(p) =~= spec_frame(p));
    } else {
        assert(e.skip(1) =~= ps.skip(1).push(p));
        lemma_frames_of_push(ps.skip(1), p);
        assert(frames_of(e) == spec_frame(ps[0]) + (frames_of(ps.skip(1)) + spec_frame(p)));
        assert(spec_frame(ps[0]) + (frames_of(ps.skip(1)) + spec_frame(p)) =~= (spec_frame(ps[0])
            + frames_of(ps.skip(1))) + spec_frame(p));
    }
}

/// The payloads of all complete, well-sized frames at the front of a buffer.
pub open spec fn drain_payloads(b: Seq<u8>) -> Seq<Seq<u8>>
    decreases b.len(),
{
    if b.len() < 4 {
        Seq::empty()
    } else {
        let n = be32(b.subrange(0, 4));
        if n > MAX_PAYLOAD as int {
            Seq::empty()
        } else if b.len() < 4 + n {
            Seq::empty()
        } else {
            seq![b.subrange(4, 4 + n)] + drain_payloads(b.skip(4 + n))
        }
    }
}

/// What is left of a buffer once its complete frames are extracted.
pub open spec fn drain_rest(b: Seq<u8>) -> Seq<u8>
    decreases b.len(),
{
    if b.len() < 4 {
        b
    } else {
        let n = be32(b.subrange(0, 4));
        if n > MAX_PAYLOAD as int {
            b
        } else if b.len() < 4 + n {
            b
        } else {
            drain_rest(b.skip(4 + n))
        }
    }
}

/// Whether extracting the buffer's complete frames hits no oversized
/// length header. A false value is a protocol violation.
pub open spec fn drain_ok(b: Seq<u8>) -> bool
    decreases b.len(),
{
    if b.len() < 4 {
        true
    } else {
        let n = be32(b.subrange(0, 4));
        if n > MAX_PAYLOAD as int {
            false
        } else if b.len() < 4 + n {
            true
        } else {
            drain_ok(b.skip(4 + n))
        }
    }
}

/// Extraction inverts framing: one well-sized framed payload at the front
/// of a buffer comes back out exactly, and the buffer behind it is
/// processed as if the frame had never been there.
pub proof fn lemma_drain_frame(p: Seq<u8>, rest: Seq<u8>)
    requires
        p.len() <= MAX_PAYLOAD,
    ensures
        drain_payloads(spec_frame(p) + rest) == seq![p] + drain_payloads(rest),
        drain_rest(spec_frame(p) + rest) == drain_rest(rest),
        drain_ok(spec_frame(p) + rest) == drain_ok(rest),
{
    let b = spec_frame(p) + rest;
    lemma_be_roundtrip(p.len() as int);
    assert(b.subrange(0, 4) =~= be_bytes(p.len() as int));
    let n = be32(b.subrange(0, 4));
    assert(n == p.len());
    assert(b.subrange(4, 4 + n) =~= p);
    assert(b.skip(4 + n) =~= rest);
}

/// Round trip for whole streams: a byte stream that carries any sequence
/// of well-sized payloads, each framed, decodes back to exactly those
/// payloads, in order, with nothing left over and no protocol violation.
pub proof fn lemma_stream_decodes(ps: Seq<Seq<u8>>)
    requires
        forall|i: int| 0 <= i < ps.len() ==> #[trigger] ps[i].len() <= MAX_PAYLOAD,
    ensures
        drain_payloads(frames_of(ps)) == ps,
        drain_rest(frames_of(ps)) == Seq::<u8>::empty(),
        drain_ok(frames_of(ps)),
    decreases ps.len(),
{
    if ps.len() == 0 {
        assert(drain_payloads(frames_of(ps)) =~= ps);
        assert(drain_rest(frames_of(ps)) =~= Seq::<u8>::empty());
    } else {
        let tail = ps.skip(1);
        assert(forall|i: int| 0 <= i < tail.len() ==> #[trigger] tail[i].len() <= MAX_PAYLOAD);
        lemma_stream_decodes(tail);
        lemma_drain_frame(ps[0], frames_of(tail));
        assert(seq![ps[0]] + tail =~= ps);
    }
}

/// The step a connection takes on its receive buffer.
pub enum FrameStep {
    /// No complete frame at the front yet; wait for more bytes.
    NeedMore,
    /// The length header exceeds `MAX_PAYLOAD`: protocol violation.
    Violation,
    /// One complete frame was removed; its payload.
    Got(Vec<u8>),
}

/// Removes the one complete frame at the front of `buf`, if any.
/// Returns its payload, or reports that more bytes are needed, or that
/// the length header is oversized (in which case `buf` is untouched).
pub fn take_frame(buf: &mut Vec<u8>) -> (step: FrameStep)
    ensures
        old(buf)@.len() < 4 ==> step is NeedMore && final(buf)@ == old(buf)@,
        old(buf)@.len() >= 4 && be32(old(buf)@.subrange(0, 4)) > MAX_PAYLOAD as int ==> step
            is Violation && final(buf)@ == old(buf)@,
        old(buf)@.len() >= 4 && be32(old(buf)@.subrange(0, 4)) <= MAX_PAYLOAD as int && old(
            buf,
        )@.len() < 4 + be32(old(buf)@.subrange(0, 4)) ==> step is NeedMore && final(buf)@ == old(
            buf,
        )@,
        old(buf)@.len() >= 4 && be32(old(buf)@.subrange(0, 4)) <= MAX_PAYLOAD as int && old(
            buf,
        )@.len() >= 4 + be32(old(buf)@.subrange(0, 4)) ==> ({
            let n = be32(old(buf)@.subrange(0, 4));
            &&& step matches FrameStep::Got(p) && p@ == old(buf)@.subrange(4, 4 + n)
            &&& final(buf)@ == old(buf)@.skip(4 + n)
        }),
{
    if buf.len() < 4 {
        return FrameStep::NeedMore;
    }
    let n: usize = (buf[0] as usize) * 0x1000000 + (buf[1] as usize) * 0x10000 + (buf[2] as usize)
        * 0x100 + (buf[3] as usize);
    assert(n == be32(buf@.subrange(0, 4)));
    if n > MAX_PAYLOAD {
        return FrameStep::Violation;
    }
    if buf.len() - 4 < n {
        return FrameStep::NeedMore;
    }
    let mut p: Vec<u8> = Vec::new();
    let mut i: usize = 0;
    while i < n
        invariant
            i <= n <= MAX_PAYLOAD,
            buf@ == old(buf)@,
            buf@.len() >= 4 + n,
            p@ == buf@.subrange(4, 4 + i as int),
        decreases n - i,
    {
        let b = buf[4 + i];
        p.push(b);
        assert(p@ =~= buf@.subrange(4, 4 + (i + 1) as int));
        i = i + 1;
    }
    let mut rest: Vec<u8> = Vec::new();
    let mut j: usize = 4 + n;
    while j < buf.len()
        invariant
            4 + n <= j <= buf@.len(),
            buf@ == old(buf)@,
            rest@ == buf@.subrange(4 + n as int, j as int),
        decreases buf@.len() - j,
    {
        let b = buf[j];
        rest.push(b);
        assert(rest@ =~= buf@.subrange(4 + n as int, (j + 1) as int));
        j = j + 1;
    }
    assert(rest@ =~= buf@.skip(4 + n as int));
    *buf = rest;
    FrameStep::Got(p)
}

/// Encodes one payload as a frame: 4-byte big-endian length, then the payload.
pub fn encode_frame(p: &[u8]) -> (out: Vec<u8>)
    requires
        p@.len() <= MAX_PAYLOAD,
    ensures
        out@ == spec_frame(p@),
{
    let n: usize = p.len();
    let mut out: Vec<u8> = Vec::new();
    out.push((n / 0x1000000 % 0x100) as u8);
    out.push((n / 0x10000 % 0x100) as u8);
    out.push((n / 0x100 % 0x100) as u8);
    out.push((n % 0x100) as u8);
    assert(out@ =~= be_bytes(p@.len() as int));
    let mut i: usize = 0;
    while i < p.len()
        invariant
            i <= p@.len(),
            out@ == be_bytes(p@.len() as int) + p@.take(i as int),
        decreases p@.len() - i,
    {
        let b = p[i];
        out.push(b);
        assert(out@ =~= be_bytes(p@.len() as int) + p@.take(i + 1 as int));
        i = i + 1;
    }
    assert(p@.take(p@.len() as int) =~= p@);
    out
}

} // verus!
