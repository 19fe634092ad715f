//! Packet sealing and opening.
//!
//! The job here is anti-injection and integrity, not secrecy: the payload is
//! audio the user asked for out loud. What matters is that nobody who is not
//! holding the key can inject a frame, forge a `Nack`, or replay one.

pub mod aead;
pub mod replay;

pub use replay::ReplayWindow;

use vstd::prelude::*;

use crate::bytes::{be_bytes, lemma_be_bytes_len, lemma_be_value_of_bytes, lemma_pow256_values, set_be};
use crate::error::{Error, Result};
use crate::header::{id_field, lemma_parse_inverts_wire, lemma_wire_inverts_parse, parsed, prefix_error, Header, HEADER_LEN};
use crate::types::{Direction, RequestId, SeqClass};
use aead::{aead_decrypt, aead_encrypt, aead_opened, aead_sealed, cipher_returns, MAX_MESSAGE};

verus! {

/// Length of the authentication tag appended to every sealed body.
pub const TAG_LEN: usize = 16;

/// Length of the shared secret minted per request.
pub const KEY_LEN: usize = 32;

/// Length of the nonce that a packet is sealed under.
pub const NONCE_LEN: usize = 12;

/// A per-request secret, shared by exactly one tap and one sink.
///
/// Per-request scoping is doing real work: it bounds the reach of a replay to a
/// single track, and it means the nonce never has to carry the request id.
#[derive(Clone)]
pub struct SessionKey {
    bytes: [u8; KEY_LEN],
}

impl View for SessionKey {
    type V = Seq<u8>;

    closed spec fn view(&self) -> Seq<u8> {
        self.bytes@
    }
}

/// The 12-byte nonce of a packet.
///
/// ```text
/// 0       1       2               4                              12
/// +-------+-------+---------------+------------------------------+
/// |  dir  | class |  epoch (u16)  |       counter (u64 BE)       |
/// +-------+-------+---------------+------------------------------+
/// ```
///
/// Never transmitted: both ends reconstruct it from the header plus the role
/// they are playing. `dir` separates the two endpoints, which share one key.
/// `class` separates payload from control, so that a `Data` frame and an `Ack`
/// cannot collide even when their counters coincide. `epoch` is reserved for
/// rekeying and is always zero.
///
/// A retransmission deliberately reproduces the same nonce, because it also
/// reproduces the same plaintext: it resends an already sealed datagram.
pub open spec fn nonce_of(dir: Direction, class: SeqClass, counter: u32) -> Seq<u8> {
    seq![dir.byte(), class.byte(), 0u8, 0u8] + be_bytes(counter as nat, 8)
}

/// The whole datagram, header included, that `plaintext` is sealed into.
pub open spec fn sealed_datagram(
    key: Seq<u8>,
    header: Header,
    dir: Direction,
    plaintext: Seq<u8>,
) -> Option<Seq<u8>> {
    match aead_sealed(
        key,
        nonce_of(dir, header.kind.class(), header.seq),
        header.wire(),
        plaintext,
    ) {
        Some(c) => Some(header.wire() + c),
        None => None,
    }
}

/// The header and plaintext of a datagram that was written in direction `dir`.
pub open spec fn opened_datagram(
    key: Seq<u8>,
    datagram: Seq<u8>,
    dir: Direction,
) -> std::result::Result<(Header, Seq<u8>), Error> {
    match parsed(datagram) {
        Err(e) => Err(e),
        Ok(header) => judged(
            header,
            dir,
            aead_opened(
                key,
                nonce_of(dir, header.kind.class(), header.seq),
                header.wire(),
                datagram.skip(HEADER_LEN as int),
            ),
        ),
    }
}

/// A packet, judged by what the cipher made of its body: first by its tag, and
/// only then by the direction that its kind travels in.
pub open spec fn judged(
    header: Header,
    dir: Direction,
    opened: Option<Seq<u8>>,
) -> std::result::Result<(Header, Seq<u8>), Error> {
    match opened {
        None => Err(Error::DecryptFailed(header.request_id)),
        Some(p) => if header.kind.travels() != dir {
            Err(Error::WrongDirection(header.kind.label()))
        } else {
            Ok((header, p))
        },
    }
}

/// Lengths of a datagram that can be handed to the cipher.
pub open spec fn openable(datagram: Seq<u8>) -> bool {
    cipher_returns(datagram.len() - HEADER_LEN - TAG_LEN)
}

/// Lengths of a plaintext that can be sealed into a datagram.
pub open spec fn sealable(plaintext: Seq<u8>) -> bool {
    &&& plaintext.len() + TAG_LEN + HEADER_LEN <= isize::MAX
    &&& cipher_returns(plaintext.len() as int)
}

impl SessionKey {
    pub fn from_bytes(key: &[u8]) -> (r: Result<Self>)
        ensures
            match r {
                Ok(k) => key@.len() == KEY_LEN && k@ == key@,
                Err(e) => key@.len() != KEY_LEN && e == Error::BadKeyLength(key@.len() as usize),
            },
    {
        if key.len() != KEY_LEN {
            return Err(Error::BadKeyLength(key.len()));
        }
        let mut bytes: [u8; KEY_LEN] = [0u8; KEY_LEN];
        let mut i: usize = 0;
        while i < KEY_LEN
            invariant
                i <= KEY_LEN,
                key@.len() == KEY_LEN,
                bytes@.take(i as int) == key@.take(i as int),
            decreases KEY_LEN - i,
        {
            bytes[i] = key[i];
            i += 1;
            assert(bytes@.take(i as int) =~= key@.take(i as int));
        }
        assert(bytes@ =~= bytes@.take(i as int) && key@ =~= key@.take(i as int));
        Ok(SessionKey { bytes })
    }

    /// What may be shown of a key: that it is one.
    pub fn redacted(&self) -> (s: String)
        ensures
            s@ == "SessionKey(<redacted>)"@,
    {
        "SessionKey(<redacted>)".to_string()
    }

    fn seal(&self, header: Header, dir: Direction, plaintext: &[u8]) -> (r: Result<Vec<u8>>)
        requires
            sealable(plaintext@),
        ensures
            match r {
                Ok(d) => {
                    &&& sealed_datagram(self@, header, dir, plaintext@) == Some(d@)
                    &&& d@.len() == HEADER_LEN + plaintext@.len() + TAG_LEN
                    &&& opened_datagram(self@, d@, dir) == judged(header, dir, Some(plaintext@))
                },
                Err(e) => {
                    &&& sealed_datagram(self@, header, dir, plaintext@) is None
                    &&& e == Error::DecryptFailed(header.request_id)
                },
            },
            r is Ok <==> plaintext@.len() <= MAX_MESSAGE,
    {
        let aad = header.to_bytes();
        let nonce = nonce_for(dir, header.kind.seq_class(), header.seq);
        let sealed = match aead_encrypt(&self.bytes, &nonce, aad.as_slice(), plaintext) {
            Ok(c) => Some(c),
            Err(_) => None,
        };
        proof {
            if sealed is Some {
                lemma_parse_inverts_wire(header, sealed->0@);
            }
        }
        assemble(header, sealed)
    }

    fn open(&self, header: Header, dir: Direction, sealed: &[u8]) -> (r: Option<Vec<u8>>)
        requires
            cipher_returns(sealed@.len() - TAG_LEN),
        ensures
            ({
                let nonce = nonce_of(dir, header.kind.class(), header.seq);
                match r {
                    Some(p) => {
                        &&& aead_opened(self@, nonce, header.wire(), sealed@) == Some(p@)
                        &&& aead_sealed(self@, nonce, header.wire(), p@) == Some(sealed@)
                        &&& p@.len() + TAG_LEN == sealed@.len()
                    },
                    None => aead_opened(self@, nonce, header.wire(), sealed@) is None,
                }
            }),
    {
        let aad = header.to_bytes();
        let nonce = nonce_for(dir, header.kind.seq_class(), header.seq);
        match aead_decrypt(&self.bytes, &nonce, aad.as_slice(), sealed) {
            Ok(p) => Some(p),
            Err(_) => None,
        }
    }
}

/// Put a header in front of what the cipher made of the body behind it.
pub fn assemble(header: Header, sealed: Option<Vec<u8>>) -> (r: Result<Vec<u8>>)
    ensures
        match (sealed, r) {
            (Some(c), Ok(d)) => d@ == header.wire() + c@,
            (None, Err(e)) => e == Error::DecryptFailed(header.request_id),
            _ => false,
        },
{
    match sealed {
        Some(c) => {
            let aad = header.to_bytes();
            let mut out: Vec<u8> = Vec::new();
            out.extend_from_slice(aad.as_slice());
            out.extend_from_slice(c.as_slice());
            assert(out@ =~= header.wire() + c@);
            Ok(out)
        },
        None => Err(Error::DecryptFailed(header.request_id)),
    }
}

/// Judge a packet by what the cipher made of its body; see [`judged`].
pub fn unsealed(header: Header, dir: Direction, opened: Option<Vec<u8>>) -> (r: Result<
    (Header, Vec<u8>),
>)
    ensures
        ({
            let plain = match opened {
                Some(p) => Some(p@),
                None => None,
            };
            match r {
                Ok((h, p)) => judged(header, dir, plain) == Ok::<(Header, Seq<u8>), Error>((h, p@)),
                Err(e) => judged(header, dir, plain) == Err::<(Header, Seq<u8>), Error>(e),
            }
        }),
{
    match opened {
        None => Err(Error::DecryptFailed(header.request_id)),
        Some(p) => {
            if header.kind.direction() != dir {
                return Err(Error::WrongDirection(header.kind.name()));
            }
            Ok((header, p))
        },
    }
}

/// Build the nonce of a packet; see [`nonce_of`].
pub fn nonce_for(dir: Direction, class: SeqClass, counter: u32) -> (n: [u8; NONCE_LEN])
    ensures
        n@ == nonce_of(dir, class, counter),
{
    let mut n: [u8; NONCE_LEN] = [0u8; NONCE_LEN];
    n[0] = dir.to_u8();
    n[1] = class.to_u8();
    proof {
        lemma_be_bytes_len(counter as nat, 8);
    }
    set_be(&mut n, 4, counter as u128, 8);
    assert(n@ =~= nonce_of(dir, class, counter));
    n
}

/// Seal a body into a complete datagram, header included.
///
/// What is sealed in its own direction opens to the same header and body; what
/// is sealed in the other direction is refused for that.
pub fn seal(key: &SessionKey, header: Header, dir: Direction, plaintext: &[u8]) -> (r: Result<Vec<u8>>)
    requires
        sealable(plaintext@),
    ensures
        match r {
            Ok(d) => {
                &&& sealed_datagram(key@, header, dir, plaintext@) == Some(d@)
                &&& d@.len() == HEADER_LEN + plaintext@.len() + TAG_LEN
                &&& opened_datagram(key@, d@, dir) == judged(header, dir, Some(plaintext@))
            },
            Err(e) => {
                &&& sealed_datagram(key@, header, dir, plaintext@) is None
                &&& e == Error::DecryptFailed(header.request_id)
            },
        },
        r is Ok <==> plaintext@.len() <= MAX_MESSAGE,
{
    key.seal(header, dir, plaintext)
}

/// Open a datagram sent by our peer.
///
/// `dir` is the direction the *sender* was writing in, so a receiver passes
/// [`Direction::Send`].
///
/// What opens is exactly what sealing the returned header and body yields:
/// there is no second spelling of a packet.
pub fn open(key: &SessionKey, datagram: &[u8], dir: Direction) -> (r: Result<(Header, Vec<u8>)>)
    requires
        openable(datagram@),
    ensures
        match r {
            Ok((header, p)) => {
                &&& opened_datagram(key@, datagram@, dir) == Ok::<(Header, Seq<u8>), Error>(
                    (header, p@),
                )
                &&& sealed_datagram(key@, header, dir, p@) == Some(datagram@)
                &&& HEADER_LEN + p@.len() + TAG_LEN == datagram@.len()
            },
            Err(e) => opened_datagram(key@, datagram@, dir) == Err::<(Header, Seq<u8>), Error>(e),
        },
{
    let (header, sealed) = Header::parse(datagram)?;
    proof {
        lemma_wire_inverts_parse(datagram@);
        lemma_parse_inverts_wire(header, sealed@);
    }
    let opened = key.open(header, dir, sealed);
    unsealed(header, dir, opened)
}

/// The request id of a datagram, for routing before anything is authenticated.
pub fn request_id_of(datagram: &[u8]) -> (r: Result<RequestId>)
    ensures
        r == (match prefix_error(datagram@) {
            Some(e) => Err::<RequestId, Error>(e),
            None => Ok::<RequestId, Error>(id_field(datagram@)),
        }),
{
    Header::peek_request_id(datagram)
}

/// The nonce never repeats across directions, classes or counters: two packets
/// share one only if all three agree.
pub proof fn lemma_nonce_injective(
    d1: Direction,
    c1: SeqClass,
    n1: u32,
    d2: Direction,
    c2: SeqClass,
    n2: u32,
)
    requires
        nonce_of(d1, c1, n1) == nonce_of(d2, c2, n2),
    ensures
        d1 == d2,
        c1 == c2,
        n1 == n2,
{
    let a = nonce_of(d1, c1, n1);
    let b = nonce_of(d2, c2, n2);
    lemma_be_bytes_len(n1 as nat, 8);
    lemma_be_bytes_len(n2 as nat, 8);
    lemma_pow256_values();
    lemma_be_value_of_bytes(n1 as nat, 8);
    lemma_be_value_of_bytes(n2 as nat, 8);
    assert(a[0] == d1.byte() && b[0] == d2.byte());
    assert(a[1] == c1.byte() && b[1] == c2.byte());
    assert(a.skip(4) =~= be_bytes(n1 as nat, 8));
    assert(b.skip(4) =~= be_bytes(n2 as nat, 8));
}

} // verus!
