//! What the bytes on the wire are, field by field.

use vstd::prelude::*;

use crate::bytes::{
    be_bytes, be_value, lemma_be_bytes_len, lemma_be_bytes_of_value, lemma_be_value_of_bytes,
    lemma_pow256_values, pow256,
};
use crate::codec::{body_layout, decoded, encoded, lemma_decode_inverts_encode, seq_at};
use crate::crypto::aead::{aead_opened, aead_sealed};
use crate::crypto::{nonce_of, opened_datagram, sealed_datagram};
use crate::error::Error;
use crate::frame::{BodyView, PacketKind};
use crate::header::{id_field, lemma_parse_inverts_wire, parsed, prefix_error, Header};
use crate::packet::{opened_body, sealed_body};
use crate::types::{Direction, RequestId, SeqClass};

verus! {

/// The most significant byte comes first: the first of `n + 1` bytes counts 256 to
/// the power `n`, and each power is 256 times the one before.
pub proof fn lemma_the_most_significant_byte_comes_first(s: Seq<u8>)
    requires
        s.len() > 0,
    ensures
        be_value(s) == s[0] * pow256((s.len() - 1) as nat) + be_value(s.skip(1)),
        pow256(0) == 1,
        pow256(s.len()) == 256 * pow256((s.len() - 1) as nat),
        be_value(Seq::empty()) == 0,
    decreases s.len(),
{
    let n = (s.len() - 1) as nat;
    if n == 0 {
        reveal_with_fuel(be_value, 2);
        assert(s.skip(1) =~= Seq::<u8>::empty());
        assert(s.drop_last() =~= Seq::<u8>::empty());
    } else {
        let front = s.drop_last();
        lemma_the_most_significant_byte_comes_first(front);
        assert(front.skip(1) =~= s.skip(1).drop_last());
        assert(s.skip(1).last() == s.last());
        let p = pow256((n - 1) as nat);
        let first = s[0] as nat;
        let rest = be_value(front.skip(1));
        assert((first * p + rest) * 256 == first * (256 * p) + rest * 256) by (nonlinear_arith);
    }
}

/// The six kinds: their bytes, the directions they travel in, and the counters
/// they draw from. No other byte stands for a kind.
pub proof fn lemma_the_six_kinds(k: PacketKind, v: u8)
    ensures
        k.byte() == match k {
            PacketKind::Data => 0u8,
            PacketKind::End => 1,
            PacketKind::EndAck => 2,
            PacketKind::Ack => 3,
            PacketKind::Nack => 4,
            PacketKind::Keepalive => 5,
        },
        PacketKind::of_byte(k.byte()) == Some(k),
        PacketKind::of_byte(v) is Some <==> v <= 5,
        PacketKind::of_byte(v) matches Some(j) ==> j.byte() == v,
        k.travels() is Send <==> k is Data || k is End || k is Keepalive,
        k.class() is Data <==> k is Data,
        Direction::Send.byte() == 0,
        Direction::Recv.byte() == 1,
        SeqClass::Data.byte() == 0,
        SeqClass::Control.byte() == 1,
{
}

/// A header is 22 bytes: the version, which is 4, the kind, sixteen bytes of
/// request id and four of sequence number, each most significant first.
pub proof fn lemma_the_layout_of_a_header(h: Header)
    ensures
        h.wire().len() == 22,
        h.wire()[0] == 4,
        h.wire()[1] == h.kind.byte(),
        be_value(h.wire().subrange(2, 18)) == h.request_id.0,
        be_value(h.wire().subrange(18, 22)) == h.seq,
{
    let id = h.request_id.0 as nat;
    lemma_be_bytes_len(id, 16);
    lemma_be_bytes_len(h.seq as nat, 4);
    lemma_pow256_values();
    lemma_be_value_of_bytes(id, 16);
    lemma_be_value_of_bytes(h.seq as nat, 4);
    assert(h.wire().subrange(2, 18) =~= be_bytes(id, 16));
    assert(h.wire().subrange(18, 22) =~= be_bytes(h.seq as nat, 4));
}

/// A header is refused in three ways and no other: if there are fewer than 22
/// bytes, else if the version is not 4, else if the byte of the kind stands for
/// none. A relay, which does not look at the kind, refuses in the first two ways.
pub proof fn lemma_what_a_header_is_refused_for(buf: Seq<u8>)
    ensures
        parsed(buf) == if buf.len() < 22 {
            Err::<Header, Error>(Error::Truncated { need: 22, got: buf.len() as usize })
        } else if buf[0] != 4 {
            Err(Error::UnsupportedVersion(buf[0]))
        } else if buf[1] > 5 {
            Err(Error::UnknownKind(buf[1]))
        } else {
            Ok(
                Header {
                    kind: PacketKind::of_byte(buf[1])->0,
                    request_id: RequestId(be_value(buf.subrange(2, 18)) as u128),
                    seq: be_value(buf.subrange(18, 22)) as u32,
                },
            )
        },
        prefix_error(buf) == if buf.len() < 22 {
            Some(Error::Truncated { need: 22, got: buf.len() as usize })
        } else if buf[0] != 4 {
            Some(Error::UnsupportedVersion(buf[0]))
        } else {
            None
        },
        id_field(buf) == RequestId(be_value(buf.subrange(2, 18)) as u128),
{
}

/// The fields of a body, in order and each most significant byte first: of a
/// frame eight bytes of timestamp, then the payload; of `End` and `Keepalive` four
/// bytes; of `EndAck` none; of an acknowledgement four bytes of prefix, four of
/// highest number and two of occupancy; and of a request two bytes of count, then
/// four bytes for each number.
pub proof fn lemma_the_layout_of_a_body(body: BodyView)
    requires
        encoded(body) is Ok,
    ensures
        encoded(body) == Ok::<Seq<u8>, Error>(body_layout(body)),
        ({
            let b = body_layout(body);
            match body {
                BodyView::Data { ts, payload } => {
                    &&& b.len() == 8 + payload.len()
                    &&& be_value(b.take(8)) == ts.0
                    &&& b.skip(8) == payload
                },
                BodyView::End { final_seq } => b.len() == 4 && be_value(b) == final_seq.0,
                BodyView::EndAck => b.len() == 0,
                BodyView::Ack { contiguous, highest, buffered_ms } => {
                    &&& b.len() == 10
                    &&& be_value(b.subrange(0, 4)) == contiguous.0
                    &&& be_value(b.subrange(4, 8)) == highest.0
                    &&& be_value(b.subrange(8, 10)) == buffered_ms
                },
                BodyView::Nack { missing } => {
                    &&& b.len() == 2 + 4 * missing.len()
                    &&& be_value(b.take(2)) == missing.len()
                    &&& forall|i: int|
                        0 <= i < missing.len() ==> (#[trigger] missing[i]).0 == be_value(
                            b.subrange(2 + 4 * i, 6 + 4 * i),
                        )
                },
                BodyView::Keepalive { lost_below } => b.len() == 4 && be_value(b) == lost_below.0,
            }
        }),
{
    let b = body_layout(body);
    lemma_decode_inverts_encode(body);
    lemma_pow256_values();
    match body {
        BodyView::Data { ts, payload } => {
            lemma_be_bytes_len(ts.0 as nat, 8);
            lemma_be_value_of_bytes(ts.0 as nat, 8);
            assert(b.take(8) =~= be_bytes(ts.0 as nat, 8));
            assert(b.skip(8) =~= payload);
        },
        BodyView::End { final_seq } => {
            lemma_be_bytes_len(final_seq.0 as nat, 4);
            lemma_be_value_of_bytes(final_seq.0 as nat, 4);
        },
        BodyView::EndAck => {},
        BodyView::Ack { contiguous, highest, buffered_ms } => {
            lemma_be_bytes_len(contiguous.0 as nat, 4);
            lemma_be_bytes_len(highest.0 as nat, 4);
            lemma_be_bytes_len(buffered_ms as nat, 2);
            lemma_be_value_of_bytes(contiguous.0 as nat, 4);
            lemma_be_value_of_bytes(highest.0 as nat, 4);
            lemma_be_value_of_bytes(buffered_ms as nat, 2);
            assert(b.subrange(0, 4) =~= be_bytes(contiguous.0 as nat, 4));
            assert(b.subrange(4, 8) =~= be_bytes(highest.0 as nat, 4));
            assert(b.subrange(8, 10) =~= be_bytes(buffered_ms as nat, 2));
        },
        BodyView::Nack { missing } => {
            lemma_be_bytes_len(missing.len(), 2);
            lemma_be_value_of_bytes(missing.len(), 2);
            assert(b.take(2) =~= be_bytes(missing.len(), 2));
            let read = Seq::new(missing.len(), |i: int| seq_at(b, 2 + 4 * i));
            assert forall|i: int| 0 <= i < missing.len() implies (#[trigger] missing[i]).0
                == be_value(b.subrange(2 + 4 * i, 6 + 4 * i)) by {
                assert(read[i] == missing[i]);
                let word = b.subrange(2 + 4 * i, 6 + 4 * i);
                lemma_be_bytes_of_value(word);
            }
        },
        BodyView::Keepalive { lost_below } => {
            lemma_be_bytes_len(lost_below.0 as nat, 4);
            lemma_be_value_of_bytes(lost_below.0 as nat, 4);
        },
    }
}

/// A body is refused for its size and for nothing else: a payload of more than
/// 1024 bytes, and a request for more than 128 frames.
pub proof fn lemma_what_a_body_is_refused_for(body: BodyView)
    ensures
        encoded(body) == match body {
            BodyView::Data { payload, .. } => if payload.len() > 1024 {
                Err::<Seq<u8>, Error>(
                    Error::PayloadTooLarge { got: payload.len() as usize, max: 1024 },
                )
            } else {
                Ok(body_layout(body))
            },
            BodyView::Nack { missing } => if missing.len() > 128 {
                Err(Error::PayloadTooLarge { got: missing.len() as usize, max: 128 })
            } else {
                Ok(body_layout(body))
            },
            _ => Ok(body_layout(body)),
        },
{
}

/// Whether an error says that the body of a packet is too short.
pub open spec fn says_too_short(r: std::result::Result<BodyView, Error>, kind: PacketKind) -> bool {
    r matches Err(Error::MalformedBody { kind: k, .. }) && k == kind.label()
}

/// Whether an error says that the body of a packet is too long.
pub open spec fn says_too_long(r: std::result::Result<BodyView, Error>, kind: PacketKind) -> bool {
    r matches Err(Error::TrailingBytes(k)) && k == kind.label()
}

/// Whether an error says that a body holds more than may be sent.
pub open spec fn says_too_large(
    r: std::result::Result<BodyView, Error>,
    got: nat,
    max: nat,
) -> bool {
    r matches Err(Error::PayloadTooLarge { got: g, max: m }) && g == got as usize && m == max
}

/// The length that a body of a fixed layout has.
pub open spec fn fixed_len(kind: PacketKind) -> nat {
    match kind {
        PacketKind::End | PacketKind::Keepalive => 4,
        PacketKind::Ack => 10,
        _ => 0,
    }
}

/// Bytes are refused as a body exactly for a wrong length or an excess: a frame
/// with fewer than eight bytes or more than 1024 of payload, a body of a fixed
/// layout of any other length, and a request that has no count, or counts more
/// than 128 frames, or is not as long as its count says. Everything else is read.
pub proof fn lemma_what_bytes_are_refused_for(kind: PacketKind, buf: Seq<u8>)
    ensures
        ({
            let r = decoded(kind, buf);
            match kind {
                PacketKind::Data => {
                    &&& says_too_short(r, kind) <==> buf.len() < 8
                    &&& says_too_large(r, (buf.len() - 8) as nat, 1024) <==> buf.len() > 1032
                    &&& r is Ok <==> 8 <= buf.len() <= 1032
                },
                PacketKind::Nack => {
                    let count = be_value(buf.take(2));
                    &&& says_too_short(r, kind) <==> buf.len() < 2 || (count <= 128 && buf.len() < 2
                        + 4 * count)
                    &&& says_too_large(r, count, 128) <==> buf.len() >= 2 && count > 128
                    &&& says_too_long(r, kind) <==> buf.len() >= 2 && count <= 128 && buf.len() > 2
                        + 4 * count
                    &&& r is Ok <==> buf.len() >= 2 && count <= 128 && buf.len() == 2 + 4 * count
                },
                _ => {
                    &&& says_too_short(r, kind) <==> buf.len() < fixed_len(kind)
                    &&& says_too_long(r, kind) <==> buf.len() > fixed_len(kind)
                    &&& r is Ok <==> buf.len() == fixed_len(kind)
                },
            }
        }),
{
}

/// A nonce is twelve bytes: the direction, the counter space, two zeros, and the
/// counter in eight bytes, most significant first.
pub proof fn lemma_the_layout_of_a_nonce(dir: Direction, class: SeqClass, counter: u32)
    ensures
        ({
            let n = nonce_of(dir, class, counter);
            &&& n.len() == 12
            &&& n[0] == if dir is Send {
                0u8
            } else {
                1
            }
            &&& n[1] == if class is Data {
                0u8
            } else {
                1
            }
            &&& n[2] == 0 && n[3] == 0
            &&& be_value(n.skip(4)) == counter
        }),
{
    let n = nonce_of(dir, class, counter);
    lemma_be_bytes_len(counter as nat, 8);
    lemma_pow256_values();
    lemma_be_value_of_bytes(counter as nat, 8);
    assert(n.skip(4) =~= be_bytes(counter as nat, 8));
}

/// A datagram is its header followed by what the cipher makes of the body under
/// the nonce of its direction, counter space and number, with the whole header as
/// associated data.
pub proof fn lemma_what_a_datagram_is(
    key: Seq<u8>,
    h: Header,
    dir: Direction,
    plaintext: Seq<u8>,
    sealed: Seq<u8>,
)
    requires
        aead_sealed(
            key,
            nonce_of(
                dir,
                if h.kind is Data {
                    SeqClass::Data
                } else {
                    SeqClass::Control
                },
                h.seq,
            ),
            h.wire(),
            plaintext,
        ) == Some(sealed),
    ensures
        sealed_datagram(key, h, dir, plaintext) == Some(h.wire() + sealed),
{
}

/// What opening a datagram gives: the cipher is asked under the nonce of the
/// direction, the counter space and the number, with the whole header as
/// associated data. If the tag does not verify, nothing else is looked at, and the
/// error names the request. Only then is a packet refused that travels the wrong
/// way, and otherwise the header and what the cipher gave are returned.
pub proof fn lemma_what_opening_gives(key: Seq<u8>, h: Header, dir: Direction, sealed: Seq<u8>)
    ensures
        ({
            let class = if h.kind is Data {
                SeqClass::Data
            } else {
                SeqClass::Control
            };
            let right_way = (dir is Send) == (h.kind is Data || h.kind is End || h.kind is Keepalive);
            opened_datagram(key, h.wire() + sealed, dir) == match aead_opened(
                key,
                nonce_of(dir, class, h.seq),
                h.wire(),
                sealed,
            ) {
                None => Err::<(Header, Seq<u8>), Error>(Error::DecryptFailed(h.request_id)),
                Some(p) => if right_way {
                    Ok((h, p))
                } else {
                    Err(Error::WrongDirection(h.kind.label()))
                },
            }
        }),
{
    lemma_parse_inverts_wire(h, sealed);
}

/// A packet is a body, encoded and sealed: it is refused for what its body is
/// refused for, and what opens is then read as a body of the kind that its header
/// names.
pub proof fn lemma_what_a_packet_is(
    key: Seq<u8>,
    h: Header,
    dir: Direction,
    body: BodyView,
    datagram: Seq<u8>,
)
    ensures
        encoded(body) matches Err(e) ==> sealed_body(key, h, dir, body) == Err::<Seq<u8>, Error>(e),
        encoded(body) matches Ok(p) ==> (sealed_datagram(key, h, dir, p) matches Some(d)
            ==> sealed_body(key, h, dir, body) == Ok::<Seq<u8>, Error>(d)),
        opened_datagram(key, datagram, dir) matches Err(e) ==> opened_body(key, datagram, dir)
            == Err::<(Header, BodyView), Error>(e),
        opened_datagram(key, datagram, dir) matches Ok((g, p)) ==> opened_body(key, datagram, dir)
            == match decoded(g.kind, p) {
            Ok(b) => Ok::<(Header, BodyView), Error>((g, b)),
            Err(e) => Err(e),
        },
{
}

} // verus!
