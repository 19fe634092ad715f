//! Serialisation of packet bodies.
//!
//! Bodies are fixed-layout big-endian, with no length prefix on the trailing
//! payload: a datagram is self-delimiting, so the Opus frame is simply "the
//! rest".

use vstd::prelude::*;

use crate::bytes::{be_bytes, be_value, get_be, lemma_be_bytes_len, lemma_be_bytes_of_value, lemma_be_value_of_bytes, lemma_pow256_values, put_be};
use crate::error::{Error, Result};
use crate::frame::{Body, BodyView, PacketKind};
use crate::types::{TimestampMs, XferSeq};

verus! {

/// Largest Opus payload accepted in one `Data` packet.
///
/// A 20 ms stereo frame is 240-320 bytes; this leaves generous headroom while
/// keeping a sealed datagram inside a 1200-byte safe MTU.
pub const MAX_PAYLOAD: usize = 1024;

/// Most sequence numbers one `Nack` may carry, so a single packet stays inside
/// the MTU.
pub const MAX_NACK_ENTRIES: usize = 128;

/// The sequence numbers of `s`, four big-endian bytes each.
pub open spec fn seqs_layout(s: Seq<XferSeq>) -> Seq<u8>
    decreases s.len(),
{
    if s.len() == 0 {
        Seq::empty()
    } else {
        seqs_layout(s.drop_last()) + be_bytes(s.last().0 as nat, 4)
    }
}

/// The bytes of a body, whether or not it is small enough to send.
pub open spec fn body_layout(body: BodyView) -> Seq<u8> {
    match body {
        BodyView::Data { ts, payload } => be_bytes(ts.0 as nat, 8) + payload,
        BodyView::End { final_seq } => be_bytes(final_seq.0 as nat, 4),
        BodyView::EndAck => Seq::empty(),
        BodyView::Ack { contiguous, highest, buffered_ms } => be_bytes(contiguous.0 as nat, 4)
            + be_bytes(highest.0 as nat, 4) + be_bytes(buffered_ms as nat, 2),
        BodyView::Nack { missing } => be_bytes(missing.len(), 2) + seqs_layout(missing),
        BodyView::Keepalive { lost_below } => be_bytes(lost_below.0 as nat, 4),
    }
}

/// The size limit that `body` breaks, as what it has and what is allowed.
pub open spec fn over_limit(body: BodyView) -> Option<(nat, nat)> {
    match body {
        BodyView::Data { payload, .. } => if payload.len() > MAX_PAYLOAD {
            Some((payload.len(), MAX_PAYLOAD as nat))
        } else {
            None
        },
        BodyView::Nack { missing } => if missing.len() > MAX_NACK_ENTRIES {
            Some((missing.len(), MAX_NACK_ENTRIES as nat))
        } else {
            None
        },
        _ => None,
    }
}

/// What encoding `body` yields.
pub open spec fn encoded(body: BodyView) -> std::result::Result<Seq<u8>, Error> {
    match over_limit(body) {
        Some((got, max)) => Err(Error::PayloadTooLarge { got: got as usize, max: max as usize }),
        None => Ok(body_layout(body)),
    }
}

proof fn lemma_seqs_layout_len(s: Seq<XferSeq>)
    ensures
        seqs_layout(s).len() == 4 * s.len(),
    decreases s.len(),
{
    if s.len() > 0 {
        lemma_seqs_layout_len(s.drop_last());
        lemma_be_bytes_len(s.last().0 as nat, 4);
    }
}

pub fn encode_body(body: &Body) -> (r: Result<Vec<u8>>)
    ensures
        match r {
            Ok(out) => encoded(body@) == Ok::<Seq<u8>, Error>(out@),
            Err(e) => encoded(body@) == Err::<Seq<u8>, Error>(e),
        },
{
    let mut out: Vec<u8> = Vec::new();
    match body {
        Body::Data { ts, payload } => {
            if payload.len() > MAX_PAYLOAD {
                return Err(Error::PayloadTooLarge { got: payload.len(), max: MAX_PAYLOAD });
            }
            put_be(&mut out, ts.0 as u128, 8);
            out.extend_from_slice(payload.as_slice());
            assert(out@ =~= body_layout(body@));
        },
        Body::End { final_seq } => {
            put_be(&mut out, final_seq.0 as u128, 4);
            assert(out@ =~= body_layout(body@));
        },
        Body::EndAck => {},
        Body::Ack { contiguous, highest, buffered_ms } => {
            put_be(&mut out, contiguous.0 as u128, 4);
            put_be(&mut out, highest.0 as u128, 4);
            put_be(&mut out, *buffered_ms as u128, 2);
            assert(out@ =~= body_layout(body@));
        },
        Body::Nack { missing } => {
            if missing.len() > MAX_NACK_ENTRIES {
                return Err(
                    Error::PayloadTooLarge { got: missing.len(), max: MAX_NACK_ENTRIES },
                );
            }
            put_be(&mut out, missing.len() as u128, 2);
            let ghost head = out@;
            let mut i: usize = 0;
            while i < missing.len()
                invariant
                    i <= missing.len(),
                    out@ == head + seqs_layout(missing@.take(i as int)),
                decreases missing.len() - i,
            {
                put_be(&mut out, missing[i].0 as u128, 4);
                proof {
                    let upto = missing@.take(i + 1);
                    assert(upto.drop_last() =~= missing@.take(i as int));
                    assert(out@ =~= head + seqs_layout(upto));
                }
                i += 1;
            }
            assert(missing@.take(i as int) =~= missing@);
            assert(out@ =~= body_layout(body@));
        },
        Body::Keepalive { lost_below } => {
            put_be(&mut out, lost_below.0 as u128, 4);
            assert(out@ =~= body_layout(body@));
        },
    }
    Ok(out)
}

/// The sequence number spelled by the four bytes at `at`.
pub open spec fn seq_at(buf: Seq<u8>, at: int) -> XferSeq {
    XferSeq(be_value(buf.subrange(at, at + 4)) as u32)
}

/// A body of exactly `want` bytes, or the error for another length.
pub open spec fn sized(
    kind: PacketKind,
    len: nat,
    want: nat,
    body: BodyView,
) -> std::result::Result<BodyView, Error> {
    if len < want {
        Err(
            Error::MalformedBody {
                kind: kind.label(),
                reason: "body shorter than the fixed layout",
            },
        )
    } else if len > want {
        Err(Error::TrailingBytes(kind.label()))
    } else {
        Ok(body)
    }
}

/// What decoding `buf` as a body of `kind` yields.
pub open spec fn decoded(kind: PacketKind, buf: Seq<u8>) -> std::result::Result<BodyView, Error> {
    match kind {
        PacketKind::Data => if buf.len() < 8 {
            Err(Error::MalformedBody { kind: kind.label(), reason: "truncated u64" })
        } else if buf.len() - 8 > MAX_PAYLOAD {
            Err(Error::PayloadTooLarge { got: (buf.len() - 8) as usize, max: MAX_PAYLOAD })
        } else {
            Ok(
                BodyView::Data {
                    ts: TimestampMs(be_value(buf.take(8)) as u64),
                    payload: buf.skip(8),
                },
            )
        },
        PacketKind::End => sized(kind, buf.len(), 4, BodyView::End { final_seq: seq_at(buf, 0) }),
        PacketKind::EndAck => sized(kind, buf.len(), 0, BodyView::EndAck),
        PacketKind::Ack => sized(
            kind,
            buf.len(),
            10,
            BodyView::Ack {
                contiguous: seq_at(buf, 0),
                highest: seq_at(buf, 4),
                buffered_ms: be_value(buf.subrange(8, 10)) as u16,
            },
        ),
        PacketKind::Nack => if buf.len() < 2 {
            Err(Error::MalformedBody { kind: kind.label(), reason: "truncated u16" })
        } else {
            let count = be_value(buf.take(2));
            if count > MAX_NACK_ENTRIES {
                Err(Error::PayloadTooLarge { got: count as usize, max: MAX_NACK_ENTRIES })
            } else {
                sized(
                    kind,
                    buf.len(),
                    2 + 4 * count,
                    BodyView::Nack { missing: Seq::new(count, |i: int| seq_at(buf, 2 + 4 * i)) },
                )
            }
        },
        PacketKind::Keepalive => sized(
            kind,
            buf.len(),
            4,
            BodyView::Keepalive { lost_below: seq_at(buf, 0) },
        ),
    }
}

pub fn decode_body(kind: PacketKind, buf: &[u8]) -> (r: Result<Body>)
    ensures
        match r {
            Ok(body) => decoded(kind, buf@) == Ok::<BodyView, Error>(body@),
            Err(e) => decoded(kind, buf@) == Err::<BodyView, Error>(e),
        },
{
    let name = kind.name();
    proof {
        lemma_pow256_values();
    }
    match kind {
        PacketKind::Data => {
            let ts = TimestampMs(take_u64(buf, 0, name)?);
            assert(buf@.subrange(0, 8) =~= buf@.take(8));
            if buf.len() - 8 > MAX_PAYLOAD {
                return Err(Error::PayloadTooLarge { got: buf.len() - 8, max: MAX_PAYLOAD });
            }
            let payload = vstd::slice::slice_subrange(buf, 8, buf.len());
            assert(payload@ =~= buf@.skip(8));
            Ok(Body::Data { ts, payload: vstd::slice::slice_to_vec(payload) })
        },
        PacketKind::End => {
            expect_len(buf, 4, name)?;
            Ok(Body::End { final_seq: XferSeq(take_u32(buf, 0, name)?) })
        },
        PacketKind::EndAck => {
            expect_len(buf, 0, name)?;
            Ok(Body::EndAck)
        },
        PacketKind::Ack => {
            expect_len(buf, 10, name)?;
            Ok(
                Body::Ack {
                    contiguous: XferSeq(take_u32(buf, 0, name)?),
                    highest: XferSeq(take_u32(buf, 4, name)?),
                    buffered_ms: take_u16(buf, 8, name)?,
                },
            )
        },
        PacketKind::Nack => {
            let count: usize = take_u16(buf, 0, name)? as usize;
            proof {
                assert(buf@.subrange(0, 2) =~= buf@.take(2));
                lemma_be_bytes_of_value(buf@.take(2));
            }
            if count > MAX_NACK_ENTRIES {
                return Err(Error::PayloadTooLarge { got: count, max: MAX_NACK_ENTRIES });
            }
            expect_len(buf, 2 + count * 4, name)?;
            let mut missing: Vec<XferSeq> = Vec::new();
            let mut i: usize = 0;
            while i < count
                invariant
                    i <= count <= MAX_NACK_ENTRIES,
                    buf@.len() == 2 + 4 * count,
                    missing@ == Seq::new(i as nat, |j: int| seq_at(buf@, 2 + 4 * j)),
                decreases count - i,
            {
                missing.push(XferSeq(take_u32(buf, 2 + i * 4, name)?));
                i += 1;
                assert(missing@ =~= Seq::new(i as nat, |j: int| seq_at(buf@, 2 + 4 * j)));
            }
            Ok(Body::Nack { missing })
        },
        PacketKind::Keepalive => {
            expect_len(buf, 4, name)?;
            Ok(Body::Keepalive { lost_below: XferSeq(take_u32(buf, 0, name)?) })
        },
    }
}

fn expect_len(buf: &[u8], want: usize, kind: &'static str) -> (r: Result<()>)
    ensures
        r == (if buf@.len() < want {
            Err::<(), Error>(
                Error::MalformedBody { kind, reason: "body shorter than the fixed layout" },
            )
        } else if buf@.len() > want {
            Err::<(), Error>(Error::TrailingBytes(kind))
        } else {
            Ok::<(), Error>(())
        }),
{
    if buf.len() < want {
        Err(Error::MalformedBody { kind, reason: "body shorter than the fixed layout" })
    } else if buf.len() > want {
        Err(Error::TrailingBytes(kind))
    } else {
        Ok(())
    }
}

/// Whether `n` bytes can be read from `buf` at `at`.
fn in_range(buf: &[u8], at: usize, n: usize) -> (b: bool)
    ensures
        b == (at + n <= buf@.len()),
{
    at <= buf.len() && n <= buf.len() - at
}

fn take_u16(buf: &[u8], at: usize, kind: &'static str) -> (r: Result<u16>)
    ensures
        r == (if at + 2 <= buf@.len() {
            Ok::<u16, Error>(be_value(buf@.subrange(at as int, at + 2)) as u16)
        } else {
            Err::<u16, Error>(Error::MalformedBody { kind, reason: "truncated u16" })
        }),
{
    if in_range(buf, at, 2) {
        proof {
            lemma_pow256_values();
        }
        Ok(get_be(buf, at, 2) as u16)
    } else {
        Err(Error::MalformedBody { kind, reason: "truncated u16" })
    }
}

fn take_u32(buf: &[u8], at: usize, kind: &'static str) -> (r: Result<u32>)
    ensures
        r == (if at + 4 <= buf@.len() {
            Ok::<u32, Error>(be_value(buf@.subrange(at as int, at + 4)) as u32)
        } else {
            Err::<u32, Error>(Error::MalformedBody { kind, reason: "truncated u32" })
        }),
{
    if in_range(buf, at, 4) {
        proof {
            lemma_pow256_values();
        }
        Ok(get_be(buf, at, 4) as u32)
    } else {
        Err(Error::MalformedBody { kind, reason: "truncated u32" })
    }
}

fn take_u64(buf: &[u8], at: usize, kind: &'static str) -> (r: Result<u64>)
    ensures
        r == (if at + 8 <= buf@.len() {
            Ok::<u64, Error>(be_value(buf@.subrange(at as int, at + 8)) as u64)
        } else {
            Err::<u64, Error>(Error::MalformedBody { kind, reason: "truncated u64" })
        }),
{
    if in_range(buf, at, 8) {
        proof {
            lemma_pow256_values();
        }
        Ok(get_be(buf, at, 8) as u64)
    } else {
        Err(Error::MalformedBody { kind, reason: "truncated u64" })
    }
}

proof fn lemma_seqs_layout_at(s: Seq<XferSeq>, head: Seq<u8>, i: int)
    requires
        0 <= i < s.len(),
    ensures
        seq_at(head + seqs_layout(s), head.len() + 4 * i) == s[i],
    decreases s.len(),
{
    let all = head + seqs_layout(s);
    lemma_seqs_layout_len(s);
    lemma_seqs_layout_len(s.drop_last());
    let tail = be_bytes(s.last().0 as nat, 4);
    lemma_be_bytes_len(s.last().0 as nat, 4);
    lemma_pow256_values();
    let at = head.len() + 4 * i;
    if i == s.len() - 1 {
        assert(all.subrange(at, at + 4) =~= tail);
        lemma_be_value_of_bytes(s.last().0 as nat, 4);
    } else {
        lemma_seqs_layout_at(s.drop_last(), head, i);
        let fewer = head + seqs_layout(s.drop_last());
        assert(all.subrange(at, at + 4) =~= fewer.subrange(at, at + 4));
    }
}

proof fn lemma_seqs_layout_of(buf: Seq<u8>, n: nat)
    requires
        buf.len() >= 2 + 4 * n,
    ensures
        seqs_layout(Seq::new(n, |i: int| seq_at(buf, 2 + 4 * i))) == buf.subrange(2, 2 + 4 * (n as int)),
    decreases n,
{
    let s = Seq::new(n, |i: int| seq_at(buf, 2 + 4 * i));
    if n > 0 {
        let m = (n - 1) as nat;
        lemma_seqs_layout_of(buf, m);
        assert(s.drop_last() =~= Seq::new(m, |i: int| seq_at(buf, 2 + 4 * i)));
        let word = buf.subrange(2 + 4 * (m as int), 2 + 4 * (m as int) + 4);
        lemma_be_bytes_of_value(word);
        lemma_pow256_values();
        assert(buf.subrange(2, 2 + 4 * (n as int)) =~= buf.subrange(2, 2 + 4 * (m as int)) + word);
    }
}

/// A body that may be sent is read back exactly: decoding the bytes of an
/// encoded body, under its kind, gives that body.
pub proof fn lemma_decode_inverts_encode(body: BodyView)
    requires
        over_limit(body) is None,
    ensures
        decoded(body.kind(), body_layout(body)) == Ok::<BodyView, Error>(body),
{
    let buf = body_layout(body);
    lemma_pow256_values();
    match body {
        BodyView::Data { ts, payload } => {
            lemma_be_bytes_len(ts.0 as nat, 8);
            lemma_be_value_of_bytes(ts.0 as nat, 8);
            assert(buf.take(8) =~= be_bytes(ts.0 as nat, 8));
            assert(buf.skip(8) =~= payload);
        },
        BodyView::End { final_seq } => {
            lemma_be_bytes_len(final_seq.0 as nat, 4);
            lemma_be_value_of_bytes(final_seq.0 as nat, 4);
            assert(buf.subrange(0, 4) =~= buf);
        },
        BodyView::EndAck => {},
        BodyView::Ack { contiguous, highest, buffered_ms } => {
            lemma_be_bytes_len(contiguous.0 as nat, 4);
            lemma_be_bytes_len(highest.0 as nat, 4);
            lemma_be_bytes_len(buffered_ms as nat, 2);
            lemma_be_value_of_bytes(contiguous.0 as nat, 4);
            lemma_be_value_of_bytes(highest.0 as nat, 4);
            lemma_be_value_of_bytes(buffered_ms as nat, 2);
            assert(buf.subrange(0, 4) =~= be_bytes(contiguous.0 as nat, 4));
            assert(buf.subrange(4, 8) =~= be_bytes(highest.0 as nat, 4));
            assert(buf.subrange(8, 10) =~= be_bytes(buffered_ms as nat, 2));
        },
        BodyView::Nack { missing } => {
            let head = be_bytes(missing.len(), 2);
            lemma_be_bytes_len(missing.len(), 2);
            lemma_be_value_of_bytes(missing.len(), 2);
            lemma_seqs_layout_len(missing);
            assert(buf.take(2) =~= head);
            let read = Seq::new(missing.len(), |i: int| seq_at(buf, 2 + 4 * i));
            assert forall|i: int| 0 <= i < missing.len() implies read[i] == missing[i] by {
                lemma_seqs_layout_at(missing, head, i);
            }
            assert(read =~= missing);
        },
        BodyView::Keepalive { lost_below } => {
            lemma_be_bytes_len(lost_below.0 as nat, 4);
            lemma_be_value_of_bytes(lost_below.0 as nat, 4);
            assert(buf.subrange(0, 4) =~= buf);
        },
    }
}

/// The layout is canonical: bytes that decode at all are the encoding of what
/// they decode to, which is of the kind asked for and small enough to send.
pub proof fn lemma_encode_inverts_decode(kind: PacketKind, buf: Seq<u8>)
    requires
        decoded(kind, buf) is Ok,
    ensures
        decoded(kind, buf)->Ok_0.kind() == kind,
        encoded(decoded(kind, buf)->Ok_0) == Ok::<Seq<u8>, Error>(buf),
{
    lemma_pow256_values();
    let body = decoded(kind, buf)->Ok_0;
    match kind {
        PacketKind::Data => {
            lemma_be_bytes_of_value(buf.take(8));
            assert(body_layout(body) =~= buf);
        },
        PacketKind::End | PacketKind::Keepalive => {
            lemma_be_bytes_of_value(buf.subrange(0, 4));
            assert(body_layout(body) =~= buf);
        },
        PacketKind::EndAck => {
            assert(body_layout(body) =~= buf);
        },
        PacketKind::Ack => {
            lemma_be_bytes_of_value(buf.subrange(0, 4));
            lemma_be_bytes_of_value(buf.subrange(4, 8));
            lemma_be_bytes_of_value(buf.subrange(8, 10));
            assert(body_layout(body) =~= buf);
        },
        PacketKind::Nack => {
            let count = be_value(buf.take(2));
            lemma_be_bytes_of_value(buf.take(2));
            lemma_seqs_layout_of(buf, count);
            assert(body_layout(body) =~= buf);
        },
    }
}

/// An encoded body is at most 1032 bytes long, whatever its kind.
pub proof fn lemma_encoded_len(body: BodyView)
    requires
        over_limit(body) is None,
    ensures
        body_layout(body).len() <= 8 + MAX_PAYLOAD,
{
    match body {
        BodyView::Data { ts, payload } => {
            lemma_be_bytes_len(ts.0 as nat, 8);
        },
        BodyView::End { final_seq } => {
            lemma_be_bytes_len(final_seq.0 as nat, 4);
        },
        BodyView::EndAck => {},
        BodyView::Ack { contiguous, highest, buffered_ms } => {
            lemma_be_bytes_len(contiguous.0 as nat, 4);
            lemma_be_bytes_len(highest.0 as nat, 4);
            lemma_be_bytes_len(buffered_ms as nat, 2);
        },
        BodyView::Nack { missing } => {
            lemma_be_bytes_len(missing.len(), 2);
            lemma_seqs_layout_len(missing);
        },
        BodyView::Keepalive { lost_below } => {
            lemma_be_bytes_len(lost_below.0 as nat, 4);
        },
    }
}

} // verus!
