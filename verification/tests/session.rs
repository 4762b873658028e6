use bittorrent::peer::{
    decode_frame, encode_frame, Frame, Handshake, Message, MessageTag, Piece, Request,
    UnknownMessage,
};
use bittorrent::session::{Action, PeerSession, SessionError, SessionState, WINDOW};
use bittorrent::BLOCK_MAX;

const INFO_HASH: [u8; 20] = [3; 20];
const OUR_ID: [u8; 20] = *b"00112233445566778899";
const THEIR_ID: [u8; 20] = *b"-XX0001-abcdefghijkl";

fn message(tag: MessageTag, payload: &[u8]) -> Frame {
    Frame::Message(Message {
        tag,
        payload: payload.to_vec(),
    })
}

fn block_frame(index: u32, begin: u32, block: &[u8]) -> Frame {
    message(
        MessageTag::Piece,
        &Piece {
            index,
            begin,
            block: block.to_vec(),
        }
        .to_payload(),
    )
}

/// The requests in the bytes that a session asked to have sent.
fn requests_in(bytes: &[u8]) -> Vec<Request> {
    let mut rest = bytes;
    let mut requests = Vec::new();
    while !rest.is_empty() {
        let (frame, used) = decode_frame(rest).unwrap();
        if let Frame::Message(m) = frame {
            if m.tag == MessageTag::Request {
                requests.push(Request::from_payload(&m.payload).unwrap());
            }
        }
        rest = &rest[used..];
    }
    requests
}

fn sent(action: Action) -> Vec<u8> {
    match action {
        Action::Send(bytes) => bytes,
        other => panic!("nothing to send: {:?}", other),
    }
}

/// A session whose peer has sent its handshake and the bitfield `bits`.
fn idle_session(bits: &[u8]) -> PeerSession {
    let mut s = PeerSession::new(INFO_HASH, OUR_ID);
    s.on_connected();
    s.on_handshake(&Handshake::new(INFO_HASH, THEIR_ID).to_bytes());
    assert_eq!(s.on_frame(&message(MessageTag::Bitfield, bits)), Action::Nothing);
    assert_eq!(s.state(), SessionState::Idle);
    s
}

fn piece_data(size: usize) -> Vec<u8> {
    (0..size).map(|i| (i * 7 + i / 256) as u8).collect()
}

#[test]
fn walks_through_the_handshake() {
    let mut s = PeerSession::new(INFO_HASH, OUR_ID);
    assert_eq!(s.state(), SessionState::Connecting);
    assert!(s.is_choked());
    let hello = sent(s.on_connected());
    assert_eq!(hello, Handshake::new(INFO_HASH, OUR_ID).to_bytes());
    assert_eq!(s.state(), SessionState::HandshakeSent);
    assert_eq!(
        s.on_handshake(&Handshake::new(INFO_HASH, THEIR_ID).to_bytes()),
        Action::Nothing
    );
    assert_eq!(s.state(), SessionState::HandshakeVerified);
    assert_eq!(s.remote_id(), THEIR_ID);
    assert_eq!(s.on_frame(&Frame::KeepAlive), Action::Nothing);
    assert_eq!(s.state(), SessionState::AwaitingBitfield);
    assert_eq!(
        s.on_frame(&message(MessageTag::Bitfield, &[0b1100_0000])),
        Action::Nothing
    );
    assert_eq!(s.state(), SessionState::Idle);
    assert!(s.peer_has(0));
    assert!(s.peer_has(1));
    assert!(!s.peer_has(2));
}

#[test]
fn events_out_of_place_are_refused() {
    let mut s = PeerSession::new(INFO_HASH, OUR_ID);
    assert_eq!(s.on_handshake(&[0; 68]), Action::Refused);
    assert_eq!(s.on_frame(&Frame::KeepAlive), Action::Refused);
    assert_eq!(s.assign(0, 4), Action::Refused);
    assert_eq!(s.state(), SessionState::Connecting);
    s.on_connected();
    assert_eq!(s.on_connected(), Action::Refused);
    assert_eq!(s.on_frame(&Frame::KeepAlive), Action::Refused);
    assert_eq!(s.state(), SessionState::HandshakeSent);
}

#[test]
fn bad_handshakes_close_the_session() {
    let good = Handshake::new(INFO_HASH, THEIR_ID).to_bytes();

    let mut wrong_length = good.clone();
    wrong_length[0] = 20;
    let mut wrong_name = good.clone();
    wrong_name[5] = b'X';
    let short = good[..67].to_vec();
    for bytes in [wrong_length, wrong_name, short] {
        let mut s = PeerSession::new(INFO_HASH, OUR_ID);
        s.on_connected();
        assert_eq!(
            s.on_handshake(&bytes),
            Action::Failed(SessionError::HandshakeMismatch)
        );
        assert_eq!(s.state(), SessionState::Closed);
    }

    let mut s = PeerSession::new(INFO_HASH, OUR_ID);
    s.on_connected();
    assert_eq!(
        s.on_handshake(&Handshake::new([4; 20], THEIR_ID).to_bytes()),
        Action::Failed(SessionError::InfoHashMismatch)
    );
    assert_eq!(s.state(), SessionState::Closed);
}

#[test]
fn first_message_has_to_be_the_bitfield() {
    let firsts = vec![
        message(MessageTag::Unchoke, &[]),
        message(MessageTag::Have, &[0, 0, 0, 1]),
        message(MessageTag::Piece, &[0; 9]),
        Frame::Unknown(UnknownMessage {
            tag: 20,
            payload: vec![],
        }),
    ];
    for first in firsts {
        let mut s = PeerSession::new(INFO_HASH, OUR_ID);
        s.on_connected();
        s.on_handshake(&Handshake::new(INFO_HASH, THEIR_ID).to_bytes());
        assert_eq!(
            s.on_frame(&first),
            Action::Failed(SessionError::ProtocolViolation)
        );
        assert_eq!(s.state(), SessionState::Closed);
    }
}

#[test]
fn closed_session_cannot_be_used_again() {
    let mut s = idle_session(&[0xff]);
    assert_eq!(s.shutdown(), Action::Nothing);
    assert_eq!(s.state(), SessionState::Closed);
    assert_eq!(s.on_connected(), Action::Refused);
    assert_eq!(s.on_frame(&Frame::KeepAlive), Action::Refused);
    assert_eq!(s.assign(0, 4), Action::Refused);
    assert_eq!(s.shutdown(), Action::Refused);
    assert_eq!(s.on_timeout(), Action::Refused);
    assert_eq!(s.on_disconnect(), Action::Refused);
    assert_eq!(s.state(), SessionState::Closed);
}

#[test]
fn assignment_is_refused_for_a_piece_the_peer_lacks() {
    let mut s = idle_session(&[0b0100_0000]);
    assert!(!s.can_fetch(0, 4));
    assert!(s.can_fetch(1, 4));
    assert!(!s.can_fetch(1, 0));
    assert!(!s.can_fetch(8, 4));
    assert_eq!(s.assign(0, 4), Action::Refused);
    assert_eq!(s.assign(1, 0), Action::Refused);
    assert_eq!(s.state(), SessionState::Idle);
}

#[test]
fn have_adds_to_the_pieces_the_peer_has() {
    let mut s = idle_session(&[0, 0]);
    assert!(!s.peer_has(9));
    assert_eq!(
        s.on_frame(&message(MessageTag::Have, &[0, 0, 0, 9])),
        Action::Nothing
    );
    assert!(s.peer_has(9));
    assert!(!s.peer_has(8));
    assert!(!s.peer_has(10));
    assert_eq!(
        s.on_frame(&message(MessageTag::Have, &[0, 0, 0, 9])),
        Action::Nothing
    );
    assert!(s.peer_has(9));
    assert_eq!(
        s.on_frame(&message(MessageTag::Have, &[0, 0, 0, 16])),
        Action::Nothing
    );
    assert!(!s.peer_has(16));
    assert_eq!(
        s.on_frame(&message(MessageTag::Have, &[0, 0, 9])),
        Action::Failed(SessionError::ProtocolViolation)
    );
    assert_eq!(s.state(), SessionState::Closed);
}

#[test]
fn fetches_a_small_piece() {
    let mut s = idle_session(&[0xff]);
    let hello = sent(s.assign(2, 4));
    assert_eq!(
        hello,
        encode_frame(&message(MessageTag::Interested, &[])).unwrap()
    );
    assert_eq!(s.state(), SessionState::Requesting);
    let asked = sent(s.on_frame(&message(MessageTag::Unchoke, &[])));
    assert_eq!(requests_in(&asked), vec![Request::new(2, 0, 4)]);
    assert_eq!(
        asked,
        vec![0, 0, 0, 13, 6, 0, 0, 0, 2, 0, 0, 0, 0, 0, 0, 0, 4]
    );
    assert_eq!(
        s.on_frame(&block_frame(2, 0, b"wxyz")),
        Action::Piece {
            index: 2,
            bytes: b"wxyz".to_vec()
        }
    );
    assert_eq!(s.state(), SessionState::Idle);
}

#[test]
fn second_piece_needs_no_second_unchoke() {
    let mut s = idle_session(&[0xff]);
    s.assign(0, 4);
    s.on_frame(&message(MessageTag::Unchoke, &[]));
    s.on_frame(&block_frame(0, 0, b"abcd"));
    assert!(!s.is_choked());
    let asked = sent(s.assign(1, 3));
    assert_eq!(requests_in(&asked), vec![Request::new(1, 0, 3)]);
    assert_eq!(asked.len(), 17);
    assert_eq!(
        s.on_frame(&block_frame(1, 0, b"efg")),
        Action::Piece {
            index: 1,
            bytes: b"efg".to_vec()
        }
    );
}

#[test]
fn keeps_a_window_of_requests_and_puts_blocks_in_offset_order() {
    let size = 7 * BLOCK_MAX + 100;
    let data = piece_data(size);
    let block = |i: usize| -> Frame {
        let begin = i * BLOCK_MAX;
        let end = usize::min(begin + BLOCK_MAX, size);
        block_frame(5, begin as u32, &data[begin..end])
    };
    let mut s = idle_session(&[0xff]);
    s.assign(5, size);
    let asked = requests_in(&sent(s.on_frame(&message(MessageTag::Unchoke, &[]))));
    assert_eq!(asked.len(), WINDOW);
    for (i, r) in asked.iter().enumerate() {
        assert_eq!(
            *r,
            Request::new(5, (i * BLOCK_MAX) as u32, BLOCK_MAX as u32)
        );
    }
    // answers come in another order than the requests went out
    let next = requests_in(&sent(s.on_frame(&block(3))));
    assert_eq!(
        next,
        vec![Request::new(5, (5 * BLOCK_MAX) as u32, BLOCK_MAX as u32)]
    );
    let next = requests_in(&sent(s.on_frame(&block(0))));
    assert_eq!(
        next,
        vec![Request::new(5, (6 * BLOCK_MAX) as u32, BLOCK_MAX as u32)]
    );
    let next = requests_in(&sent(s.on_frame(&block(6))));
    assert_eq!(next, vec![Request::new(5, (7 * BLOCK_MAX) as u32, 100)]);
    assert_eq!(s.on_frame(&block(7)), Action::Nothing);
    assert_eq!(s.on_frame(&Frame::KeepAlive), Action::Nothing);
    assert_eq!(s.on_frame(&block(1)), Action::Nothing);
    assert_eq!(s.on_frame(&block(5)), Action::Nothing);
    assert_eq!(s.on_frame(&block(4)), Action::Nothing);
    assert_eq!(s.state(), SessionState::Requesting);
    assert_eq!(
        s.on_frame(&block(2)),
        Action::Piece {
            index: 5,
            bytes: data.clone()
        }
    );
    assert_eq!(s.state(), SessionState::Idle);
}

#[test]
fn unexpected_blocks_close_the_session() {
    let size = 2 * BLOCK_MAX;
    let data = piece_data(size);
    let unexpected = vec![
        // another piece
        block_frame(2, 0, &data[..BLOCK_MAX]),
        // an offset where no block starts
        block_frame(1, 1, &data[..BLOCK_MAX]),
        // a block beyond the piece
        block_frame(1, (2 * BLOCK_MAX) as u32, &data[..BLOCK_MAX]),
        // a block of the wrong length
        block_frame(1, 0, &data[..BLOCK_MAX - 1]),
        block_frame(1, 0, &[]),
    ];
    for frame in unexpected {
        let mut s = idle_session(&[0xff]);
        s.assign(1, size);
        s.on_frame(&message(MessageTag::Unchoke, &[]));
        assert_eq!(
            s.on_frame(&frame),
            Action::Failed(SessionError::UnexpectedPiece)
        );
        assert_eq!(s.state(), SessionState::Closed);
    }

    // the same block twice
    let mut s = idle_session(&[0xff]);
    s.assign(1, size);
    s.on_frame(&message(MessageTag::Unchoke, &[]));
    assert_eq!(
        s.on_frame(&block_frame(1, 0, &data[..BLOCK_MAX])),
        Action::Nothing
    );
    assert_eq!(
        s.on_frame(&block_frame(1, 0, &data[..BLOCK_MAX])),
        Action::Failed(SessionError::UnexpectedPiece)
    );

    // a block before any request went out
    let mut s = idle_session(&[0xff]);
    s.assign(1, size);
    assert_eq!(
        s.on_frame(&block_frame(1, 0, &data[..BLOCK_MAX])),
        Action::Failed(SessionError::UnexpectedPiece)
    );

    // a block while nothing is being fetched
    let mut s = idle_session(&[0xff]);
    assert_eq!(
        s.on_frame(&block_frame(1, 0, &data[..BLOCK_MAX])),
        Action::Failed(SessionError::UnexpectedPiece)
    );
    assert_eq!(s.state(), SessionState::Closed);
}

#[test]
fn malformed_piece_payload_is_a_protocol_violation() {
    let mut s = idle_session(&[0xff]);
    s.assign(0, 4);
    s.on_frame(&message(MessageTag::Unchoke, &[]));
    assert_eq!(
        s.on_frame(&message(MessageTag::Piece, &[0; 7])),
        Action::Failed(SessionError::ProtocolViolation)
    );
    assert_eq!(s.state(), SessionState::Closed);
}

#[test]
fn second_bitfield_is_a_protocol_violation() {
    let mut s = idle_session(&[0xff]);
    assert_eq!(
        s.on_frame(&message(MessageTag::Bitfield, &[0xff])),
        Action::Failed(SessionError::ProtocolViolation)
    );
    assert_eq!(s.state(), SessionState::Closed);
}

#[test]
fn choke_drops_requests_and_unchoke_sends_them_again() {
    let size = 3 * BLOCK_MAX;
    let data = piece_data(size);
    let mut s = idle_session(&[0xff]);
    s.assign(0, size);
    let asked = requests_in(&sent(s.on_frame(&message(MessageTag::Unchoke, &[]))));
    assert_eq!(asked.len(), 3);
    assert_eq!(
        s.on_frame(&block_frame(0, BLOCK_MAX as u32, &data[BLOCK_MAX..2 * BLOCK_MAX])),
        Action::Nothing
    );
    assert_eq!(s.on_frame(&message(MessageTag::Choke, &[])), Action::Nothing);
    assert!(s.is_choked());
    let again = requests_in(&sent(s.on_frame(&message(MessageTag::Unchoke, &[]))));
    assert_eq!(
        again,
        vec![
            Request::new(0, 0, BLOCK_MAX as u32),
            Request::new(0, (2 * BLOCK_MAX) as u32, BLOCK_MAX as u32),
        ]
    );
    s.on_frame(&block_frame(0, (2 * BLOCK_MAX) as u32, &data[2 * BLOCK_MAX..]));
    assert_eq!(
        s.on_frame(&block_frame(0, 0, &data[..BLOCK_MAX])),
        Action::Piece {
            index: 0,
            bytes: data
        }
    );
}

#[test]
fn messages_of_no_concern_are_passed_over() {
    let mut s = idle_session(&[0xff]);
    let passed = vec![
        Frame::KeepAlive,
        message(MessageTag::Interested, &[]),
        message(MessageTag::NotInterested, &[]),
        message(MessageTag::Request, &[0; 12]),
        message(MessageTag::Cancel, &[0; 12]),
        Frame::Unknown(UnknownMessage {
            tag: 20,
            payload: vec![1, 2, 3],
        }),
    ];
    for frame in &passed {
        assert_eq!(s.on_frame(frame), Action::Nothing);
        assert_eq!(s.state(), SessionState::Idle);
    }
    s.assign(0, 4);
    for frame in &passed {
        assert_eq!(s.on_frame(frame), Action::Nothing);
        assert_eq!(s.state(), SessionState::Requesting);
    }
}

#[test]
fn timeout_and_disconnect_close_the_session() {
    let mut s = idle_session(&[0xff]);
    s.assign(0, 4);
    assert_eq!(s.on_timeout(), Action::Failed(SessionError::Timeout));
    assert_eq!(s.state(), SessionState::Closed);

    let mut s = idle_session(&[0xff]);
    s.assign(0, 4);
    s.on_frame(&message(MessageTag::Unchoke, &[]));
    assert_eq!(
        s.on_disconnect(),
        Action::Failed(SessionError::Disconnected)
    );
    assert_eq!(s.state(), SessionState::Closed);

    let mut s = PeerSession::new(INFO_HASH, OUR_ID);
    assert_eq!(
        s.on_disconnect(),
        Action::Failed(SessionError::Disconnected)
    );
    assert_eq!(s.state(), SessionState::Closed);
}
