//! The cleartext header of a datagram.

use vstd::prelude::*;

use crate::bytes::{be_bytes, be_value, get_be, lemma_be_bytes_len, lemma_be_bytes_of_value, lemma_be_value_of_bytes, lemma_pow256_values, set_be};
use crate::error::{Error, Result};
use crate::frame::PacketKind;
use crate::types::RequestId;

verus! {

/// Wire version carried in every datagram.
pub const VERSION: u8 = 0x04;

/// Size of the cleartext header, in bytes.
///
/// ```text
/// 0       1       2                                   18            22
/// +-------+-------+-----------------------------------+-------------+
/// |version| kind  |        request_id (16 bytes)      | seq (u32 BE)|
/// +-------+-------+-----------------------------------+-------------+
/// ```
pub const HEADER_LEN: usize = 22;

const REQUEST_ID_OFF: usize = 2;

const SEQ_OFF: usize = 18;

/// The unencrypted prefix of a datagram.
///
/// `request_id` lets a relay route without holding key material. `seq` and
/// `kind` are what the receiver needs to reconstruct the nonce, and it cannot
/// decrypt without the nonce.
///
/// The whole header is fed to the cipher as associated data. What makes that
/// worth anything: no receiver state changes on any of these fields until the
/// tag verifies. Before that they are a routing hint and nothing more.
#[derive(Debug, Clone, Copy, PartialEq, Eq)]
pub struct Header {
    pub kind: PacketKind,
    pub request_id: RequestId,
    /// For `Data` this is the transfer sequence number; for every other kind it
    /// is that direction's control counter.
    pub seq: u32,
}

/// The request id that a header's bytes carry.
pub open spec fn id_field(buf: Seq<u8>) -> RequestId {
    RequestId(be_value(buf.subrange(2, 18)) as u128)
}

/// Why `buf` cannot begin with a header, as far as its length and version tell.
pub open spec fn prefix_error(buf: Seq<u8>) -> Option<Error> {
    if buf.len() < HEADER_LEN {
        Some(Error::Truncated { need: HEADER_LEN, got: buf.len() as usize })
    } else if buf[0] != VERSION {
        Some(Error::UnsupportedVersion(buf[0]))
    } else {
        None
    }
}

/// The header at the front of `buf`.
pub open spec fn parsed(buf: Seq<u8>) -> std::result::Result<Header, Error> {
    match prefix_error(buf) {
        Some(e) => Err(e),
        None => match PacketKind::of_byte(buf[1]) {
            None => Err(Error::UnknownKind(buf[1])),
            Some(kind) => Ok(
                Header {
                    kind,
                    request_id: id_field(buf),
                    seq: be_value(buf.subrange(18, 22)) as u32,
                },
            ),
        },
    }
}

impl Header {
    pub fn new(kind: PacketKind, request_id: RequestId, seq: u32) -> (h: Self)
        ensures
            h == (Header { kind, request_id, seq }),
    {
        Header { kind, request_id, seq }
    }

    /// The bytes of this header.
    pub open spec fn wire(self) -> Seq<u8> {
        seq![VERSION, self.kind.byte()] + self.request_id.wire() + be_bytes(self.seq as nat, 4)
    }

    /// Parse the header, returning it with the remaining (still sealed) bytes.
    pub fn parse(buf: &[u8]) -> (r: Result<(Self, &[u8])>)
        ensures
            match r {
                Ok((header, rest)) => {
                    &&& parsed(buf@) == Ok::<Header, Error>(header)
                    &&& rest@ == buf@.skip(HEADER_LEN as int)
                },
                Err(e) => parsed(buf@) == Err::<Header, Error>(e),
            },
    {
        let request_id = Header::peek_request_id(buf)?;
        let kind = PacketKind::from_u8(buf[1])?;
        proof {
            lemma_pow256_values();
        }
        let seq: u32 = get_be(buf, SEQ_OFF, HEADER_LEN - SEQ_OFF) as u32;
        let rest = vstd::slice::slice_subrange(buf, HEADER_LEN, buf.len());
        assert(rest@ =~= buf@.skip(HEADER_LEN as int));
        Ok((Header { kind, request_id, seq }, rest))
    }

    pub fn to_bytes(self) -> (b: [u8; HEADER_LEN])
        ensures
            b@ == self.wire(),
    {
        let mut out: [u8; HEADER_LEN] = [0u8; HEADER_LEN];
        out[0] = VERSION;
        out[1] = self.kind.to_u8();
        proof {
            lemma_be_bytes_len(self.request_id.0 as nat, 16);
            lemma_be_bytes_len(self.seq as nat, 4);
        }
        set_be(&mut out, REQUEST_ID_OFF, self.request_id.0, RequestId::LEN);
        set_be(&mut out, SEQ_OFF, self.seq as u128, HEADER_LEN - SEQ_OFF);
        assert(out@ =~= self.wire());
        out
    }

    /// Read just the request id, for a relay that only needs to route.
    ///
    /// Tolerates kinds it does not recognise, so that a relay keeps forwarding
    /// correctly after new kinds are added.
    pub fn peek_request_id(buf: &[u8]) -> (r: Result<RequestId>)
        ensures
            r == (match prefix_error(buf@) {
                Some(e) => Err::<RequestId, Error>(e),
                None => Ok::<RequestId, Error>(id_field(buf@)),
            }),
    {
        if buf.len() < HEADER_LEN {
            return Err(Error::Truncated { need: HEADER_LEN, got: buf.len() });
        }
        if buf[0] != VERSION {
            return Err(Error::UnsupportedVersion(buf[0]));
        }
        Ok(RequestId(get_be(buf, REQUEST_ID_OFF, RequestId::LEN)))
    }
}

/// A datagram that begins with the bytes of a header parses to that header.
pub proof fn lemma_parse_inverts_wire(h: Header, rest: Seq<u8>)
    ensures
        h.wire().len() == HEADER_LEN,
        parsed(h.wire() + rest) == Ok::<Header, Error>(h),
        (h.wire() + rest).skip(HEADER_LEN as int) == rest,
{
    let buf = h.wire() + rest;
    let id = h.request_id.0 as nat;
    lemma_be_bytes_len(id, 16);
    lemma_be_bytes_len(h.seq as nat, 4);
    lemma_pow256_values();
    lemma_be_value_of_bytes(id, 16);
    lemma_be_value_of_bytes(h.seq as nat, 4);
    assert(buf.subrange(2, 18) =~= be_bytes(id, 16));
    assert(buf.subrange(18, 22) =~= be_bytes(h.seq as nat, 4));
    assert(buf.skip(HEADER_LEN as int) =~= rest);
}

/// The header bytes are canonical: a datagram that parses begins with exactly
/// the bytes of the header it parses to.
pub proof fn lemma_wire_inverts_parse(buf: Seq<u8>)
    requires
        parsed(buf) is Ok,
    ensures
        buf == parsed(buf)->Ok_0.wire() + buf.skip(HEADER_LEN as int),
{
    lemma_pow256_values();
    lemma_be_bytes_of_value(buf.subrange(2, 18));
    lemma_be_bytes_of_value(buf.subrange(18, 22));
    assert(buf =~= parsed(buf)->Ok_0.wire() + buf.skip(HEADER_LEN as int));
}

/// Routing agrees with parsing, and needs no known kind: whatever the kind
/// byte, a relay reads the id that the endpoints read.
pub proof fn lemma_routing_ignores_kind(buf: Seq<u8>, kind: u8)
    requires
        parsed(buf) is Ok,
    ensures
        prefix_error(buf.update(1, kind)) is None,
        id_field(buf.update(1, kind)) == parsed(buf)->Ok_0.request_id,
{
    assert(buf.update(1, kind).subrange(2, 18) =~= buf.subrange(2, 18));
}

} // verus!
