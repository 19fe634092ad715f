//! Minting of request ids and keys, and the text form of an id.

use vstd::prelude::*;

use crate::bytes::be_bytes;
use crate::crypto::KEY_LEN;
use crate::types::RequestId;

verus! {

/// Whether sixteen bytes are a version 4 UUID: the version digit is 4 and the
/// variant bits are `10`.
pub open spec fn is_v4(bytes: Seq<u8>) -> bool {
    bytes[6] / 16 == 4 && bytes[8] / 64 == 2
}

/// The lower-case hexadecimal digit of a value below sixteen.
pub open spec fn hex_digit(v: int) -> char {
    if v < 10 {
        (48 + v) as char
    } else {
        (87 + v) as char
    }
}

/// Two digits per byte.
pub open spec fn hex_digits(bytes: Seq<u8>) -> Seq<char> {
    Seq::new(
        2 * bytes.len(),
        |i: int|
            hex_digit(
                if i % 2 == 0 {
                    bytes[i / 2] as int / 16
                } else {
                    bytes[i / 2] as int % 16
                },
            ),
    )
}

/// The hyphenated form of sixteen bytes: groups of 8, 4, 4, 4 and 12 digits.
pub open spec fn hyphenated(bytes: Seq<u8>) -> Seq<char> {
    let d = hex_digits(bytes);
    d.subrange(0, 8) + seq!['-'] + d.subrange(8, 12) + seq!['-'] + d.subrange(12, 16) + seq!['-']
        + d.subrange(16, 20) + seq!['-'] + d.subrange(20, 32)
}

/// `uuid::Uuid::new_v4`, read as a number by `as_u128`. Of the result only the
/// version and the variant are claimed; the other 122 bits come from the
/// operating system's random source, and the call panics if that source fails.
#[verifier::external_body]
fn uuid_new_v4() -> (n: u128)
    ensures
        is_v4(be_bytes(n as nat, 16)),
{
    uuid::Uuid::new_v4().as_u128()
}

/// The `Display` form of the `uuid::Uuid` that `from_u128` makes of a number,
/// which is the lower-case hyphenated form of its bytes, most significant first.
#[verifier::external_body]
fn uuid_display(n: u128) -> (s: String)
    ensures
        s@ == hyphenated(be_bytes(n as nat, 16)),
{
    uuid::Uuid::from_u128(n).to_string()
}

/// `rand::fill` on a fresh array. Nothing is claimed of the bytes, which come
/// from the thread's random generator; the call panics if that generator cannot
/// be seeded.
#[verifier::external_body]
fn rand_fill() -> (k: [u8; KEY_LEN])
{
    let mut k = [0u8; KEY_LEN];
    rand::fill(&mut k);
    k
}

impl RequestId {
    /// Mint an id that nobody can guess: a version 4 UUID.
    pub fn random() -> (id: Self)
        ensures
            is_v4(id.wire()),
    {
        RequestId(uuid_new_v4())
    }

    /// The id as people write it.
    pub fn to_string(&self) -> (s: String)
        ensures
            s@ == hyphenated(self.wire()),
    {
        uuid_display(self.0)
    }
}

/// Mint a fresh 32-byte key. Sinks call this; nobody else does.
pub fn random_key() -> (k: [u8; KEY_LEN])
    ensures
        k@.len() == KEY_LEN,
{
    rand_fill()
}

} // verus!
