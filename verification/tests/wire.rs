//! The bytes on the wire: headers, bodies, keys and ids.

use protofish4::codec::{decode_body, encode_body, MAX_NACK_ENTRIES, MAX_PAYLOAD};
use protofish4::crypto::{self, ReplayWindow, SessionKey};
use protofish4::packet::{open_body, seal_body, MAX_DATAGRAM};
use protofish4::{
    Body, ControlSeq, Direction, Error, Header, PacketKind, RequestId, SeqClass, TimestampMs,
    XferSeq, HEADER_LEN, VERSION,
};

const ID: RequestId = RequestId(0x67e55044_10b1_426f_9247_bb680e5fe0c8);

fn key() -> SessionKey {
    SessionKey::from_bytes(&[7u8; 32]).unwrap()
}

#[test]
fn a_header_has_the_documented_layout() {
    let header = Header::new(PacketKind::Nack, ID, 0x01020304);
    let bytes = header.to_bytes();
    let mut want = vec![VERSION, 0x04];
    want.extend_from_slice(&[
        0x67, 0xe5, 0x50, 0x44, 0x10, 0xb1, 0x42, 0x6f, 0x92, 0x47, 0xbb, 0x68, 0x0e, 0x5f, 0xe0,
        0xc8,
    ]);
    want.extend_from_slice(&[1, 2, 3, 4]);
    assert_eq!(bytes.to_vec(), want);
    assert_eq!(bytes.len(), HEADER_LEN);

    let mut datagram = want.clone();
    datagram.extend_from_slice(b"rest");
    let (parsed, rest) = Header::parse(&datagram).unwrap();
    assert_eq!(parsed, header);
    assert_eq!(rest, b"rest");
    assert_eq!(Header::peek_request_id(&datagram).unwrap(), ID);
}

#[test]
fn a_header_that_cannot_be_read_is_refused() {
    let good = Header::new(PacketKind::Data, ID, 1).to_bytes();
    assert_eq!(
        Header::parse(&good[..HEADER_LEN - 1]).unwrap_err(),
        Error::Truncated { need: HEADER_LEN, got: HEADER_LEN - 1 }
    );
    let mut other = good;
    other[0] = 0x03;
    assert_eq!(Header::parse(&other).unwrap_err(), Error::UnsupportedVersion(3));
    let mut unknown = good;
    unknown[1] = 0x06;
    assert_eq!(Header::parse(&unknown).unwrap_err(), Error::UnknownKind(6));
    // A relay routes kinds that it does not know.
    assert_eq!(crypto::request_id_of(&unknown).unwrap(), ID);
    assert_eq!(
        crypto::request_id_of(&[]).unwrap_err(),
        Error::Truncated { need: HEADER_LEN, got: 0 }
    );
}

#[test]
fn bodies_have_the_documented_layout() {
    let cases = vec![
        (
            Body::Data { ts: TimestampMs(0x0102030405060708), payload: vec![9, 8] },
            vec![1, 2, 3, 4, 5, 6, 7, 8, 9, 8],
        ),
        (Body::End { final_seq: XferSeq(0x0a0b0c0d) }, vec![0x0a, 0x0b, 0x0c, 0x0d]),
        (Body::EndAck, vec![]),
        (
            Body::Ack { contiguous: XferSeq(1), highest: XferSeq(0x0100), buffered_ms: 0x0203 },
            vec![0, 0, 0, 1, 0, 0, 1, 0, 2, 3],
        ),
        (
            Body::Nack { missing: vec![XferSeq(2), XferSeq(0x01000000)] },
            vec![0, 2, 0, 0, 0, 2, 1, 0, 0, 0],
        ),
        (Body::Keepalive { lost_below: XferSeq(6) }, vec![0, 0, 0, 6]),
    ];
    for (body, bytes) in cases {
        assert_eq!(encode_body(&body).unwrap(), bytes);
        assert_eq!(decode_body(body.kind(), &bytes).unwrap(), body);
    }
}

#[test]
fn malformed_bodies_are_refused() {
    assert!(matches!(
        decode_body(PacketKind::Data, &[0; 7]),
        Err(Error::MalformedBody { kind: "Data", .. })
    ));
    assert!(matches!(
        decode_body(PacketKind::End, &[0; 3]),
        Err(Error::MalformedBody { kind: "End", .. })
    ));
    assert_eq!(
        decode_body(PacketKind::End, &[0; 5]).unwrap_err(),
        Error::TrailingBytes("End")
    );
    assert_eq!(
        decode_body(PacketKind::EndAck, &[0]).unwrap_err(),
        Error::TrailingBytes("EndAck")
    );
    assert!(matches!(
        decode_body(PacketKind::Nack, &[0, 2, 0, 0, 0, 1]),
        Err(Error::MalformedBody { kind: "Nack", .. })
    ));
}

#[test]
fn oversized_bodies_are_refused() {
    let fits = Body::Data { ts: TimestampMs(0), payload: vec![0; MAX_PAYLOAD] };
    assert!(encode_body(&fits).is_ok());
    let body = Body::Data { ts: TimestampMs(0), payload: vec![0; MAX_PAYLOAD + 1] };
    let want = Error::PayloadTooLarge { got: MAX_PAYLOAD + 1, max: MAX_PAYLOAD };
    assert_eq!(encode_body(&body).unwrap_err(), want);
    assert_eq!(
        decode_body(PacketKind::Data, &vec![0; 8 + MAX_PAYLOAD + 1]).unwrap_err(),
        want
    );
    let body = Body::Nack { missing: vec![XferSeq(1); MAX_NACK_ENTRIES + 1] };
    assert_eq!(
        encode_body(&body).unwrap_err(),
        Error::PayloadTooLarge { got: MAX_NACK_ENTRIES + 1, max: MAX_NACK_ENTRIES }
    );
}

#[test]
fn a_key_is_32_bytes_and_is_not_shown() {
    for len in [0usize, 31, 33] {
        let got = SessionKey::from_bytes(&vec![1u8; len]);
        assert!(matches!(got, Err(Error::BadKeyLength(n)) if n == len));
    }
    assert_eq!(key().redacted(), "SessionKey(<redacted>)");
}

#[test]
fn opening_fails_with_the_reason() {
    let header = Header::new(PacketKind::Data, ID, 1);
    let sealed = crypto::seal(&key(), header, Direction::Send, b"body").unwrap();
    assert_ne!(&sealed[HEADER_LEN..HEADER_LEN + 4], b"body", "the body is encrypted");
    assert_eq!(sealed.len(), HEADER_LEN + 4 + 16);
    // Another direction is another nonce, so the tag fails, and that comes first.
    assert_eq!(
        crypto::open(&key(), &sealed, Direction::Recv).unwrap_err(),
        Error::DecryptFailed(ID)
    );
    // A kind that does not travel this way is refused once the tag has verified.
    let absurd = crypto::seal(&key(), header, Direction::Recv, b"body").unwrap();
    assert_eq!(
        crypto::open(&key(), &absurd, Direction::Recv).unwrap_err(),
        Error::WrongDirection("Data")
    );
    let mut broken = sealed.clone();
    broken[HEADER_LEN] ^= 1;
    assert_eq!(
        crypto::open(&key(), &broken, Direction::Send).unwrap_err(),
        Error::DecryptFailed(ID)
    );
    assert_eq!(
        crypto::open(&key(), &sealed[..HEADER_LEN + 3], Direction::Send).unwrap_err(),
        Error::DecryptFailed(ID)
    );
    let (h, p) = crypto::open(&key(), &sealed, Direction::Send).unwrap();
    assert_eq!((h, p), (header, b"body".to_vec()));
}

#[test]
fn what_the_cipher_returns_decides() {
    let header = Header::new(PacketKind::End, ID, 3);
    let whole = crypto::assemble(header, Some(vec![1, 2, 3])).unwrap();
    assert_eq!(&whole[..HEADER_LEN], &header.to_bytes());
    assert_eq!(&whole[HEADER_LEN..], &[1, 2, 3]);
    assert_eq!(crypto::assemble(header, None).unwrap_err(), Error::DecryptFailed(ID));
    let send = Direction::Send;
    let recv = Direction::Recv;
    assert_eq!(crypto::unsealed(header, send, Some(vec![5])).unwrap(), (header, vec![5]));
    assert_eq!(crypto::unsealed(header, send, None).unwrap_err(), Error::DecryptFailed(ID));
    assert_eq!(
        crypto::unsealed(header, recv, Some(vec![5])).unwrap_err(),
        Error::WrongDirection("End")
    );
    assert_eq!(crypto::unsealed(header, recv, None).unwrap_err(), Error::DecryptFailed(ID));
}

#[test]
fn a_nonce_spells_direction_class_and_counter() {
    assert_eq!(
        crypto::nonce_for(Direction::Send, SeqClass::Data, 0x01020304),
        [0, 0, 0, 0, 0, 0, 0, 0, 1, 2, 3, 4]
    );
    assert_eq!(
        crypto::nonce_for(Direction::Recv, SeqClass::Control, u32::MAX),
        [1, 1, 0, 0, 0, 0, 0, 0, 0xff, 0xff, 0xff, 0xff]
    );
}

#[test]
fn the_largest_packet_fits_the_mtu() {
    let body = Body::Data { ts: TimestampMs(u64::MAX), payload: vec![0xff; MAX_PAYLOAD] };
    let header = Header::new(PacketKind::Data, ID, u32::MAX);
    let sealed = seal_body(&key(), header, Direction::Send, &body).unwrap();
    assert!(sealed.len() <= MAX_DATAGRAM);
    let (h, b) = open_body(&key(), &sealed, Direction::Send).unwrap();
    assert_eq!((h, b), (header, body));
}

#[test]
fn a_packet_with_a_bad_body_does_not_open() {
    let header = Header::new(PacketKind::End, ID, 1);
    let sealed = crypto::seal(&key(), header, Direction::Send, b"abcde").unwrap();
    assert_eq!(
        open_body(&key(), &sealed, Direction::Send).unwrap_err(),
        Error::TrailingBytes("End")
    );
    let big = Body::Data { ts: TimestampMs(0), payload: vec![0; MAX_PAYLOAD + 1] };
    let header = Header::new(PacketKind::Data, ID, 1);
    assert!(seal_body(&key(), header, Direction::Send, &big).is_err());
}

/// Each direction, class and counter has a nonce of its own, so the same bytes
/// never encrypt to the same ciphertext.
#[test]
fn equal_bodies_encrypt_differently_under_different_nonces() {
    let seal = |kind: PacketKind, seq: u32, dir: Direction| {
        let d = crypto::seal(&key(), Header::new(kind, ID, seq), dir, &[0u8; 32]).unwrap();
        d[HEADER_LEN..HEADER_LEN + 32].to_vec()
    };
    let all = vec![
        seal(PacketKind::Data, 5, Direction::Send),
        seal(PacketKind::Data, 6, Direction::Send),
        seal(PacketKind::End, 5, Direction::Send),
        seal(PacketKind::Ack, 5, Direction::Recv),
    ];
    for i in 0..all.len() {
        for j in 0..i {
            assert_ne!(all[i], all[j]);
        }
    }
}

#[test]
fn random_ids_are_version_4_and_differ() {
    let a = RequestId::random();
    let b = RequestId::random();
    assert_ne!(a, b);
    for id in [a, b] {
        let bytes = id.to_bytes();
        assert_eq!(bytes[6] >> 4, 4);
        assert_eq!(bytes[8] >> 6, 2);
        assert_eq!(RequestId::from_bytes(bytes), id);
    }
}

#[test]
fn an_id_is_written_in_hyphenated_form() {
    assert_eq!(ID.to_string(), "67e55044-10b1-426f-9247-bb680e5fe0c8");
    assert_eq!(RequestId(0).to_string(), "00000000-0000-0000-0000-000000000000");
    assert_eq!(RequestId(u128::MAX).to_string(), "ffffffff-ffff-ffff-ffff-ffffffffffff");
}

#[test]
fn random_keys_differ() {
    assert_ne!(protofish4::random_key(), protofish4::random_key());
    assert_ne!(protofish4::random_key(), [0u8; 32]);
}

#[test]
fn kinds_know_their_byte_name_direction_and_class() {
    let all = vec![
        (0u8, PacketKind::Data, "Data", Direction::Send, SeqClass::Data),
        (1, PacketKind::End, "End", Direction::Send, SeqClass::Control),
        (2, PacketKind::EndAck, "EndAck", Direction::Recv, SeqClass::Control),
        (3, PacketKind::Ack, "Ack", Direction::Recv, SeqClass::Control),
        (4, PacketKind::Nack, "Nack", Direction::Recv, SeqClass::Control),
        (5, PacketKind::Keepalive, "Keepalive", Direction::Send, SeqClass::Control),
    ];
    for (byte, kind, name, dir, class) in all {
        assert_eq!(PacketKind::from_u8(byte).unwrap(), kind);
        assert_eq!(kind.to_u8(), byte);
        assert_eq!(kind.name(), name);
        assert_eq!(kind.direction(), dir);
        assert_eq!(kind.seq_class(), class);
    }
    assert_eq!(PacketKind::from_u8(6).unwrap_err(), Error::UnknownKind(6));
    assert_eq!(Direction::Send.peer(), Direction::Recv);
    assert_eq!((Direction::Send.to_u8(), Direction::Recv.to_u8()), (0, 1));
    assert_eq!((SeqClass::Data.to_u8(), SeqClass::Control.to_u8()), (0, 1));
}

#[test]
fn sequence_numbers_stop_and_control_counters_wrap() {
    assert_eq!(XferSeq::first(), XferSeq(1));
    assert_eq!(XferSeq(1).next(), XferSeq(2));
    assert_eq!(XferSeq(u32::MAX).next(), XferSeq(u32::MAX));
    assert_eq!(ControlSeq::first(), ControlSeq(0));
    assert_eq!(ControlSeq(0).next(), ControlSeq(1));
    assert_eq!(ControlSeq(u32::MAX).next(), ControlSeq(0));
}

/// A jump by exactly the width of the window keeps the old top in it.
#[test]
fn the_replay_window_remembers_its_old_top_after_a_full_jump() {
    let mut w = ReplayWindow::default();
    assert!(w.accept(100).is_ok());
    assert!(w.accept(100 + 1024).is_ok());
    assert_eq!(w.accept(100).unwrap_err(), Error::Replay(100));
    assert!(w.accept(101).is_ok());
    assert!(w.accept(100 + 1025).is_ok());
    assert!(w.accept(100).is_err(), "too old now");
}
