use bittorrent::peer::{
    bytes_equal, decode_frame, encode_frame, has_piece, have_index, Frame, Handshake,
    HandshakeError, Message, MessageTag, Piece, Request, UnknownMessage, HANDSHAKE_LEN,
};

const INFO_HASH: [u8; 20] = [7; 20];
const PEER_ID: [u8; 20] = *b"00112233445566778899";

fn message(tag: MessageTag, payload: &[u8]) -> Frame {
    Frame::Message(Message {
        tag,
        payload: payload.to_vec(),
    })
}

#[test]
fn handshake_has_the_wire_layout() {
    let h = Handshake::new(INFO_HASH, PEER_ID);
    assert_eq!(h.length, 19);
    assert_eq!(&h.bittorrent, b"BitTorrent protocol");
    assert_eq!(h.reserved, [0; 8]);
    let bytes = h.to_bytes();
    assert_eq!(bytes.len(), 68);
    assert_eq!(HANDSHAKE_LEN, 68);
    assert_eq!(bytes[0], 19);
    assert_eq!(&bytes[1..20], b"BitTorrent protocol");
    assert_eq!(&bytes[20..28], &[0; 8]);
    assert_eq!(&bytes[28..48], &INFO_HASH);
    assert_eq!(&bytes[48..68], &PEER_ID);
}

#[test]
fn handshake_reads_back() {
    let h = Handshake::new(INFO_HASH, PEER_ID);
    assert_eq!(Handshake::from_bytes(&h.to_bytes()), Some(h));
    assert_eq!(Handshake::from_bytes(&h.to_bytes()[..67]), None);
    let mut longer = h.to_bytes();
    longer.push(0);
    assert_eq!(Handshake::from_bytes(&longer), None);
    assert_eq!(Handshake::from_bytes(&[]), None);
}

#[test]
fn echo_is_accepted_whatever_the_peer_id() {
    for id in [[0u8; 20], [255u8; 20], PEER_ID] {
        let mut bytes = Handshake::new(INFO_HASH, PEER_ID).to_bytes();
        bytes[48..68].copy_from_slice(&id);
        let h = Handshake::from_bytes(&bytes).unwrap();
        assert_eq!(h.peer_id, id);
        assert_eq!(h.validate(&INFO_HASH), Ok(()));
    }
}

#[test]
fn reserved_bytes_do_not_matter() {
    let mut h = Handshake::new(INFO_HASH, PEER_ID);
    h.reserved = [0, 0, 0, 0, 0, 0x10, 0, 5];
    assert_eq!(h.validate(&INFO_HASH), Ok(()));
}

#[test]
fn wrong_length_byte_is_a_handshake_mismatch() {
    let mut h = Handshake::new(INFO_HASH, PEER_ID);
    h.length = 18;
    assert_eq!(
        h.validate(&INFO_HASH),
        Err(HandshakeError::HandshakeMismatch)
    );
    h.length = 0;
    assert_eq!(
        h.validate(&INFO_HASH),
        Err(HandshakeError::HandshakeMismatch)
    );
}

#[test]
fn wrong_protocol_name_is_a_handshake_mismatch() {
    let mut h = Handshake::new(INFO_HASH, PEER_ID);
    h.bittorrent = *b"BitTorrent protocoL";
    assert_eq!(
        h.validate(&INFO_HASH),
        Err(HandshakeError::HandshakeMismatch)
    );
    let mut h = Handshake::new(INFO_HASH, PEER_ID);
    h.bittorrent = *b"bitTorrent protocol";
    h.info_hash = [8; 20];
    assert_eq!(
        h.validate(&INFO_HASH),
        Err(HandshakeError::HandshakeMismatch)
    );
}

#[test]
fn other_info_hash_is_an_info_hash_mismatch() {
    let h = Handshake::new([8; 20], PEER_ID);
    assert_eq!(
        h.validate(&INFO_HASH),
        Err(HandshakeError::InfoHashMismatch)
    );
    let mut nearly = INFO_HASH;
    nearly[19] = 6;
    assert_eq!(
        Handshake::new(nearly, PEER_ID).validate(&INFO_HASH),
        Err(HandshakeError::InfoHashMismatch)
    );
}

#[test]
fn tags_have_their_bytes() {
    let tags = [
        MessageTag::Choke,
        MessageTag::Unchoke,
        MessageTag::Interested,
        MessageTag::NotInterested,
        MessageTag::Have,
        MessageTag::Bitfield,
        MessageTag::Request,
        MessageTag::Piece,
        MessageTag::Cancel,
    ];
    for (i, tag) in tags.iter().enumerate() {
        assert_eq!(tag.to_byte(), i as u8);
        assert_eq!(MessageTag::from_byte(i as u8), Some(*tag));
    }
    assert_eq!(MessageTag::from_byte(9), None);
    assert_eq!(MessageTag::from_byte(255), None);
}

#[test]
fn frames_have_length_tag_payload() {
    assert_eq!(encode_frame(&Frame::KeepAlive), Some(vec![0, 0, 0, 0]));
    assert_eq!(
        encode_frame(&message(MessageTag::Interested, &[])),
        Some(vec![0, 0, 0, 1, 2])
    );
    assert_eq!(
        encode_frame(&message(MessageTag::Have, &[0, 0, 1, 2])),
        Some(vec![0, 0, 0, 5, 4, 0, 0, 1, 2])
    );
    let long = vec![9u8; 70000];
    let encoded = encode_frame(&message(MessageTag::Piece, &long)).unwrap();
    assert_eq!(&encoded[..5], &[0, 1, 0x11, 0x71, 7]);
    assert_eq!(&encoded[5..], &long[..]);
    assert_eq!(
        encode_frame(&Frame::Unknown(UnknownMessage {
            tag: 20,
            payload: vec![1, 2],
        })),
        Some(vec![0, 0, 0, 3, 20, 1, 2])
    );
}

#[test]
fn decoding_gives_the_frame_back() {
    let frames = vec![
        Frame::KeepAlive,
        message(MessageTag::Choke, &[]),
        message(MessageTag::Unchoke, &[]),
        message(MessageTag::Interested, &[]),
        message(MessageTag::NotInterested, &[]),
        message(MessageTag::Have, &[0, 0, 0, 9]),
        message(MessageTag::Bitfield, &[0xff, 0x80]),
        message(MessageTag::Request, &[0; 12]),
        message(MessageTag::Piece, &[1; 300]),
        message(MessageTag::Cancel, &[2; 12]),
        Frame::Unknown(UnknownMessage {
            tag: 9,
            payload: vec![],
        }),
        Frame::Unknown(UnknownMessage {
            tag: 255,
            payload: vec![5, 6, 7],
        }),
    ];
    for frame in frames {
        let mut bytes = encode_frame(&frame).unwrap();
        let len = bytes.len();
        assert_eq!(decode_frame(&bytes), Some((frame.clone(), len)));
        bytes.extend_from_slice(&[0, 0, 0, 1, 1]);
        assert_eq!(decode_frame(&bytes), Some((frame, len)));
    }
}

#[test]
fn unknown_tag_is_kept() {
    assert_eq!(
        decode_frame(&[0, 0, 0, 3, 42, 1, 2, 99]),
        Some((
            Frame::Unknown(UnknownMessage {
                tag: 42,
                payload: vec![1, 2],
            }),
            7
        ))
    );
}

#[test]
fn incomplete_frame_waits_for_more() {
    assert_eq!(decode_frame(&[]), None);
    assert_eq!(decode_frame(&[0, 0, 0]), None);
    assert_eq!(decode_frame(&[0, 0, 0, 1]), None);
    assert_eq!(decode_frame(&[0, 0, 0, 5, 4, 0, 0, 1]), None);
    assert_eq!(decode_frame(&[0xff, 0xff, 0xff, 0xff, 7, 1, 2, 3]), None);
    let whole = encode_frame(&message(MessageTag::Piece, &[3; 100])).unwrap();
    for n in 0..whole.len() {
        assert_eq!(decode_frame(&whole[..n]), None);
    }
    assert!(decode_frame(&whole).is_some());
}

#[test]
fn frames_come_off_a_stream_one_by_one() {
    let mut stream = Vec::new();
    stream.extend(encode_frame(&message(MessageTag::Bitfield, &[0xe0])).unwrap());
    stream.extend(encode_frame(&Frame::KeepAlive).unwrap());
    stream.extend(encode_frame(&message(MessageTag::Unchoke, &[])).unwrap());
    let (first, used) = decode_frame(&stream).unwrap();
    assert_eq!(first, message(MessageTag::Bitfield, &[0xe0]));
    let rest = &stream[used..];
    let (second, used) = decode_frame(rest).unwrap();
    assert_eq!(second, Frame::KeepAlive);
    assert_eq!(used, 4);
    let rest = &rest[used..];
    let (third, used) = decode_frame(rest).unwrap();
    assert_eq!(third, message(MessageTag::Unchoke, &[]));
    assert_eq!(used, rest.len());
}

#[test]
fn request_payload_is_three_big_endian_numbers() {
    let r = Request::new(1, 16384, 0x01020304);
    assert_eq!(
        r.to_payload(),
        vec![0, 0, 0, 1, 0, 0, 0x40, 0, 1, 2, 3, 4]
    );
    assert_eq!(Request::from_payload(&r.to_payload()), Some(r));
    assert_eq!(
        Request::from_payload(&[0xff; 12]),
        Some(Request {
            index: u32::MAX,
            begin: u32::MAX,
            length: u32::MAX
        })
    );
    assert_eq!(Request::from_payload(&[0; 11]), None);
    assert_eq!(Request::from_payload(&[0; 13]), None);
    let m = r.to_message();
    assert_eq!(m.tag, MessageTag::Request);
    assert_eq!(m.payload, r.to_payload());
}

#[test]
fn piece_payload_is_index_begin_block() {
    let p = Piece {
        index: 2,
        begin: 32768,
        block: vec![9, 8, 7],
    };
    assert_eq!(p.to_payload(), vec![0, 0, 0, 2, 0, 0, 0x80, 0, 9, 8, 7]);
    assert_eq!(Piece::from_payload(&p.to_payload()), Some(p));
    assert_eq!(
        Piece::from_payload(&[0; 8]),
        Some(Piece {
            index: 0,
            begin: 0,
            block: vec![]
        })
    );
    assert_eq!(Piece::from_payload(&[0; 7]), None);
}

#[test]
fn have_payload_is_a_piece_index() {
    assert_eq!(have_index(&[0, 0, 1, 0]), Some(256));
    assert_eq!(have_index(&[0xff, 0xff, 0xff, 0xff]), Some(u32::MAX));
    assert_eq!(have_index(&[0, 0, 1]), None);
    assert_eq!(have_index(&[0, 0, 1, 0, 0]), None);
}

#[test]
fn bitfield_counts_from_the_most_significant_bit() {
    let bits = [0b1010_0000u8, 0b0000_0001u8];
    assert!(has_piece(&bits, 0));
    assert!(!has_piece(&bits, 1));
    assert!(has_piece(&bits, 2));
    for i in 3..15 {
        assert!(!has_piece(&bits, i));
    }
    assert!(has_piece(&bits, 15));
    assert!(!has_piece(&bits, 16));
    assert!(!has_piece(&bits, usize::MAX));
    assert!(!has_piece(&[], 0));
    for i in 0..8 {
        assert!(has_piece(&[0xff], i));
        assert_eq!(has_piece(&[1 << (7 - i)], i), true);
        assert_eq!(has_piece(&[!(1u8 << (7 - i))], i), false);
    }
}

#[test]
fn byte_strings_are_equal_when_all_bytes_are() {
    assert!(bytes_equal(b"", b""));
    assert!(bytes_equal(b"abc", b"abc"));
    assert!(!bytes_equal(b"abc", b"abd"));
    assert!(!bytes_equal(b"abc", b"ab"));
    assert!(!bytes_equal(b"", b"a"));
}
