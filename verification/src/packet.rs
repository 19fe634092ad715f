//! Whole packets: a header and a body, sealed into one datagram.

use vstd::prelude::*;

use crate::codec::{decode_body, decoded, encode_body, encoded, lemma_decode_inverts_encode, lemma_encode_inverts_decode, lemma_encoded_len, over_limit};
use crate::crypto::{open, openable, opened_datagram, seal, sealed_datagram, SessionKey};
use crate::error::{Error, Result};
use crate::frame::{Body, BodyView};
use crate::header::Header;
use crate::types::Direction;

verus! {

/// No packet is longer than this, so that none is ever fragmented on the way.
pub const MAX_DATAGRAM: usize = 1200;

/// The datagram that carries `body` behind `header`, or why there is none.
pub open spec fn sealed_body(
    key: Seq<u8>,
    header: Header,
    dir: Direction,
    body: BodyView,
) -> std::result::Result<Seq<u8>, Error> {
    match encoded(body) {
        Err(e) => Err(e),
        Ok(p) => match sealed_datagram(key, header, dir, p) {
            Some(d) => Ok(d),
            None => Err(Error::DecryptFailed(header.request_id)),
        },
    }
}

/// The packet that an opened datagram is.
pub open spec fn decoded_packet(
    opened: std::result::Result<(Header, Seq<u8>), Error>,
) -> std::result::Result<(Header, BodyView), Error> {
    match opened {
        Err(e) => Err(e),
        Ok((header, p)) => match decoded(header.kind, p) {
            Err(e) => Err(e),
            Ok(body) => Ok((header, body)),
        },
    }
}

/// The packet that a datagram written in direction `dir` carries, or why it
/// carries none.
pub open spec fn opened_body(
    key: Seq<u8>,
    datagram: Seq<u8>,
    dir: Direction,
) -> std::result::Result<(Header, BodyView), Error> {
    decoded_packet(opened_datagram(key, datagram, dir))
}

/// Encode a body and seal it into a datagram.
///
/// A body within the size limits always becomes a datagram, and that datagram
/// opens to the same header and body, if it travels in the direction of its
/// kind.
pub fn seal_body(key: &SessionKey, header: Header, dir: Direction, body: &Body) -> (r: Result<
    Vec<u8>,
>)
    requires
        header.kind == body@.kind(),
    ensures
        match r {
            Ok(d) => {
                &&& sealed_body(key@, header, dir, body@) == Ok::<Seq<u8>, Error>(d@)
                &&& d@.len() <= MAX_DATAGRAM
                &&& header.kind.travels() == dir ==> opened_body(key@, d@, dir) == Ok::<
                    (Header, BodyView),
                    Error,
                >((header, body@))
            },
            Err(e) => sealed_body(key@, header, dir, body@) == Err::<Seq<u8>, Error>(e),
        },
        r is Ok <==> over_limit(body@) is None,
{
    let plaintext = encode_body(body)?;
    proof {
        lemma_encoded_len(body@);
        lemma_decode_inverts_encode(body@);
    }
    seal(key, header, dir, plaintext.as_slice())
}

/// Decode the body of an opened datagram.
pub fn decode_packet(opened: Result<(Header, Vec<u8>)>) -> (r: Result<(Header, Body)>)
    ensures
        ({
            let plain = match opened {
                Ok((h, p)) => Ok::<(Header, Seq<u8>), Error>((h, p@)),
                Err(e) => Err::<(Header, Seq<u8>), Error>(e),
            };
            match r {
                Ok((h, b)) => {
                    &&& decoded_packet(plain) == Ok::<(Header, BodyView), Error>((h, b@))
                    &&& b@.kind() == h.kind
                },
                Err(e) => decoded_packet(plain) == Err::<(Header, BodyView), Error>(e),
            }
        }),
{
    let (header, plaintext) = opened?;
    let body = decode_body(header.kind, plaintext.as_slice())?;
    proof {
        lemma_encode_inverts_decode(header.kind, plaintext@);
    }
    Ok((header, body))
}

/// Open a datagram that was written in direction `dir`, and decode its body.
pub fn open_body(key: &SessionKey, datagram: &[u8], dir: Direction) -> (r: Result<(Header, Body)>)
    requires
        openable(datagram@),
    ensures
        match r {
            Ok((h, b)) => {
                &&& opened_body(key@, datagram@, dir) == Ok::<(Header, BodyView), Error>((h, b@))
                &&& b@.kind() == h.kind
                &&& h.kind.travels() == dir
                &&& sealed_body(key@, h, dir, b@) == Ok::<Seq<u8>, Error>(datagram@)
            },
            Err(e) => opened_body(key@, datagram@, dir) == Err::<(Header, BodyView), Error>(e),
        },
{
    let opened = open(key, datagram, dir);
    proof {
        let plain = opened_datagram(key@, datagram@, dir);
        if opened_body(key@, datagram@, dir) is Ok {
            lemma_encode_inverts_decode(plain->Ok_0.0.kind, plain->Ok_0.1);
        }
    }
    decode_packet(opened)
}

} // verus!
