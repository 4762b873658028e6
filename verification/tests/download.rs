use bittorrent::download::{
    digest_matches, piece_matches, DownloadError, Orchestrator, PieceAssignment, PieceOutcome,
    Progress,
};
use bittorrent::hashes::Hashes;
use bittorrent::peer::{decode_frame, Frame, Handshake, Message, MessageTag, Piece, Request};
use bittorrent::session::{Action, PeerSession, SessionState};
use sha1::{Digest, Sha1};

const CONTENT: &[u8; 10] = b"abcdefghij";

fn sha1(bytes: &[u8]) -> [u8; 20] {
    Sha1::digest(bytes).into()
}

/// Piece length 4 and total length 10: two pieces of 4 bytes and one of 2.
fn download_of_content() -> Orchestrator {
    let hashes = Hashes(vec![
        sha1(&CONTENT[0..4]),
        sha1(&CONTENT[4..8]),
        sha1(&CONTENT[8..10]),
    ]);
    Orchestrator::new(hashes, 4, 10).unwrap()
}

/// A peer that has the whole content and answers every request in what it is sent.
fn serve(sent: &[u8]) -> Vec<Frame> {
    let mut rest = sent;
    let mut answers = Vec::new();
    while !rest.is_empty() {
        let (frame, used) = decode_frame(rest).unwrap();
        rest = &rest[used..];
        if let Frame::Message(m) = frame {
            if m.tag == MessageTag::Interested {
                answers.push(Frame::Message(Message {
                    tag: MessageTag::Unchoke,
                    payload: vec![],
                }));
            } else if m.tag == MessageTag::Request {
                let r = Request::from_payload(&m.payload).unwrap();
                let start = r.index as usize * 4 + r.begin as usize;
                let block = CONTENT[start..start + r.length as usize].to_vec();
                answers.push(Frame::Message(Message {
                    tag: MessageTag::Piece,
                    payload: Piece {
                        index: r.index,
                        begin: r.begin,
                        block,
                    }
                    .to_payload(),
                }));
            }
        }
    }
    answers
}

fn connected_session() -> PeerSession {
    let info_hash = [9; 20];
    let mut s = PeerSession::new(info_hash, *b"00112233445566778899");
    s.on_connected();
    s.on_handshake(&Handshake::new(info_hash, [1; 20]).to_bytes());
    s.on_frame(&Frame::Message(Message {
        tag: MessageTag::Bitfield,
        payload: vec![0b1110_0000],
    }));
    assert_eq!(s.state(), SessionState::Idle);
    s
}

/// Lets `session` fetch piece `index` of `size` bytes from the serving peer.
fn fetch(session: &mut PeerSession, index: usize, size: usize) -> Vec<u8> {
    let mut action = session.assign(index, size);
    loop {
        match action {
            Action::Send(bytes) => {
                let mut next = Action::Nothing;
                for frame in serve(&bytes) {
                    next = session.on_frame(&frame);
                    if next != Action::Nothing {
                        break;
                    }
                }
                action = next;
            }
            Action::Piece { index: got, bytes } => {
                assert_eq!(got, index);
                return bytes;
            }
            other => panic!("the fetch got stuck: {:?}", other),
        }
    }
}

#[test]
fn sha1_known_answers() {
    let hashes = Hashes(vec![[
        0xa9, 0x99, 0x3e, 0x36, 0x47, 0x06, 0x81, 0x6a, 0xba, 0x3e, 0x25, 0x71, 0x78, 0x50, 0xc2,
        0x6c, 0x9c, 0xd0, 0xd8, 0x9d,
    ]]);
    let mut d = Orchestrator::new(hashes, 3, 3).unwrap();
    let s = d.add_session();
    assert_eq!(d.claim_next(s), Some(0));
    assert_eq!(
        d.report_piece(s, 0, b"abd"),
        PieceOutcome::IntegrityFailure { index: 0 }
    );
    assert_eq!(d.claim_next(s), Some(0));
    assert_eq!(
        d.report_piece(s, 0, b"abc"),
        PieceOutcome::Verified { offset: 0 }
    );
}

#[test]
fn new_download_has_every_piece_pending() {
    let d = download_of_content();
    assert_eq!(d.piece_count(), 3);
    for i in 0..3 {
        assert_eq!(d.piece_state(i), Some(PieceAssignment::Pending));
    }
    assert_eq!(d.piece_state(3), None);
    assert_eq!(d.piece_len(0), Some(4));
    assert_eq!(d.piece_len(1), Some(4));
    assert_eq!(d.piece_len(2), Some(2));
    assert_eq!(d.piece_len(3), None);
}

#[test]
fn hash_table_has_to_fit_the_content() {
    let two = || Hashes(vec![[0; 20], [1; 20]]);
    assert!(Orchestrator::new(two(), 4, 10).is_none());
    assert!(Orchestrator::new(two(), 4, 8).is_some());
    assert!(Orchestrator::new(two(), 4, 5).is_some());
    assert!(Orchestrator::new(two(), 4, 4).is_none());
    assert!(Orchestrator::new(two(), 0, 8).is_none());
    assert!(Orchestrator::new(Hashes(vec![]), 4, 0).is_some());
}

#[test]
fn download_without_pieces_is_complete() {
    let d = Orchestrator::new(Hashes(vec![]), 4, 0).unwrap();
    assert_eq!(
        d.progress(),
        Progress::Complete {
            total_bytes_written: 0
        }
    );
}

#[test]
fn end_to_end_over_two_sessions() {
    let mut d = download_of_content();
    let mut sessions = vec![connected_session(), connected_session()];
    let ids = vec![d.add_session(), d.add_session()];
    assert_eq!(ids, vec![0, 1]);
    assert_eq!(d.progress(), Progress::Running);

    let mut output = vec![0u8; 10];
    let mut requested = Vec::new();
    let mut offsets = Vec::new();
    let mut turn = 0;
    while d.progress() == Progress::Running {
        let who = turn % 2;
        turn += 1;
        let index = match d.claim_next(ids[who]) {
            Some(index) => index,
            None => continue,
        };
        requested.push(index);
        assert_eq!(d.piece_state(index), Some(PieceAssignment::InFlight(ids[who])));
        let size = d.piece_len(index).unwrap();
        let bytes = fetch(&mut sessions[who], index, size);
        match d.report_piece(ids[who], index, &bytes) {
            PieceOutcome::Verified { offset } => {
                output[offset..offset + bytes.len()].copy_from_slice(&bytes);
                offsets.push(offset);
            }
            other => panic!("piece {} was not accepted: {:?}", index, other),
        }
        assert_eq!(d.piece_state(index), Some(PieceAssignment::Verified));
    }
    assert_eq!(requested, vec![0, 1, 2]);
    assert_eq!(offsets, vec![0, 4, 8]);
    assert_eq!(
        d.progress(),
        Progress::Complete {
            total_bytes_written: 10
        }
    );
    assert_eq!(&output, CONTENT);
}

#[test]
fn output_offsets_do_not_depend_on_completion_order() {
    let mut d = download_of_content();
    let a = d.add_session();
    let b = d.add_session();
    let c = d.add_session();
    assert_eq!(d.claim_next(a), Some(0));
    assert_eq!(d.claim_next(b), Some(1));
    assert_eq!(d.claim_next(c), Some(2));
    assert_eq!(
        d.report_piece(c, 2, b"ij"),
        PieceOutcome::Verified { offset: 8 }
    );
    assert_eq!(
        d.report_piece(a, 0, b"abcd"),
        PieceOutcome::Verified { offset: 0 }
    );
    assert_eq!(d.progress(), Progress::Running);
    assert_eq!(
        d.report_piece(b, 1, b"efgh"),
        PieceOutcome::Verified { offset: 4 }
    );
    assert_eq!(
        d.progress(),
        Progress::Complete {
            total_bytes_written: 10
        }
    );
}

#[test]
fn pieces_are_handed_out_lowest_index_first_and_never_twice() {
    let mut d = download_of_content();
    let a = d.add_session();
    let b = d.add_session();
    assert!(d.is_idle(a));
    assert_eq!(d.claim_next(a), Some(0));
    assert!(!d.is_idle(a));
    // a session that is fetching gets no second piece
    assert_eq!(d.claim_next(a), None);
    assert_eq!(d.claim_next(b), Some(1));
    assert_eq!(d.piece_state(0), Some(PieceAssignment::InFlight(a)));
    assert_eq!(d.piece_state(1), Some(PieceAssignment::InFlight(b)));
    assert_eq!(d.piece_state(2), Some(PieceAssignment::Pending));
    // a session that was never taken in gets nothing
    assert_eq!(d.claim_next(7), None);
    assert_eq!(
        d.report_piece(a, 0, b"abcd"),
        PieceOutcome::Verified { offset: 0 }
    );
    assert_eq!(d.claim_next(a), Some(2));
    assert_eq!(
        d.report_piece(b, 1, b"efgh"),
        PieceOutcome::Verified { offset: 4 }
    );
    assert_eq!(d.claim_next(b), None);
}

#[test]
fn piece_with_wrong_hash_goes_back_to_pending_and_is_assigned_again() {
    let mut d = download_of_content();
    let a = d.add_session();
    let b = d.add_session();
    assert_eq!(d.claim_next(a), Some(0));
    assert_eq!(
        d.report_piece(a, 0, b"abcX"),
        PieceOutcome::IntegrityFailure { index: 0 }
    );
    assert_eq!(d.piece_state(0), Some(PieceAssignment::Pending));
    assert_eq!(d.progress(), Progress::Running);
    // the piece goes out again, to whichever session asks first
    assert_eq!(d.claim_next(b), Some(0));
    assert_eq!(d.piece_state(0), Some(PieceAssignment::InFlight(b)));
    assert_eq!(
        d.report_piece(b, 0, b"abcd"),
        PieceOutcome::Verified { offset: 0 }
    );
    assert_eq!(d.piece_state(0), Some(PieceAssignment::Verified));
    // and the session that failed may go on with other pieces
    assert_eq!(d.claim_next(a), Some(1));
}

#[test]
fn piece_of_wrong_length_is_not_accepted() {
    let mut d = download_of_content();
    let a = d.add_session();
    assert_eq!(d.claim_next(a), Some(0));
    let digest = sha1(b"abcd");
    assert_eq!(
        d.record_digest(a, 0, 3, &digest),
        PieceOutcome::IntegrityFailure { index: 0 }
    );
    assert_eq!(d.claim_next(a), Some(0));
    assert_eq!(
        d.record_digest(a, 0, 4, &digest),
        PieceOutcome::Verified { offset: 0 }
    );
}

#[test]
fn report_for_a_piece_not_in_flight_changes_nothing() {
    let mut d = download_of_content();
    let a = d.add_session();
    let b = d.add_session();
    assert_eq!(d.report_piece(a, 0, b"abcd"), PieceOutcome::NotInFlight);
    assert_eq!(d.piece_state(0), Some(PieceAssignment::Pending));
    assert_eq!(d.claim_next(a), Some(0));
    assert_eq!(d.report_piece(b, 0, b"abcd"), PieceOutcome::NotInFlight);
    assert_eq!(d.report_piece(a, 1, b"efgh"), PieceOutcome::NotInFlight);
    assert_eq!(d.report_piece(a, 3, b"efgh"), PieceOutcome::NotInFlight);
    assert_eq!(d.piece_state(0), Some(PieceAssignment::InFlight(a)));
    assert_eq!(
        d.report_piece(a, 0, b"abcd"),
        PieceOutcome::Verified { offset: 0 }
    );
    assert_eq!(d.report_piece(a, 0, b"abcd"), PieceOutcome::NotInFlight);
    assert_eq!(d.piece_state(0), Some(PieceAssignment::Verified));
}

#[test]
fn disconnect_of_the_only_session_fails_the_download() {
    let mut d = download_of_content();
    let a = d.add_session();
    assert_eq!(d.claim_next(a), Some(0));
    assert_eq!(d.piece_state(0), Some(PieceAssignment::InFlight(a)));
    assert_eq!(
        d.remove_session(a),
        Progress::Failed(DownloadError::NoPeersAvailable { piece: 0 })
    );
    assert_eq!(d.piece_state(0), Some(PieceAssignment::Pending));
    assert_eq!(d.claim_next(a), None);
    assert_eq!(
        d.progress(),
        Progress::Failed(DownloadError::NoPeersAvailable { piece: 0 })
    );
}

#[test]
fn disconnect_with_another_session_left_goes_on() {
    let mut d = download_of_content();
    let a = d.add_session();
    let b = d.add_session();
    assert_eq!(d.claim_next(a), Some(0));
    assert_eq!(d.claim_next(b), Some(1));
    assert_eq!(d.remove_session(a), Progress::Running);
    assert_eq!(d.piece_state(0), Some(PieceAssignment::Pending));
    assert_eq!(d.piece_state(1), Some(PieceAssignment::InFlight(b)));
    assert_eq!(
        d.report_piece(b, 1, b"efgh"),
        PieceOutcome::Verified { offset: 4 }
    );
    assert_eq!(d.claim_next(b), Some(0));
    assert_eq!(
        d.report_piece(b, 0, b"abcd"),
        PieceOutcome::Verified { offset: 0 }
    );
    assert_eq!(d.claim_next(b), Some(2));
    assert_eq!(
        d.remove_session(b),
        Progress::Failed(DownloadError::NoPeersAvailable { piece: 2 })
    );
}

#[test]
fn no_session_at_all_fails_the_download() {
    let d = download_of_content();
    assert_eq!(
        d.progress(),
        Progress::Failed(DownloadError::NoPeersAvailable { piece: 0 })
    );
}

#[test]
fn last_session_may_leave_once_all_is_verified() {
    let mut d = download_of_content();
    let a = d.add_session();
    for (i, piece) in [&b"abcd"[..], &b"efgh"[..], &b"ij"[..]].iter().enumerate() {
        assert_eq!(d.claim_next(a), Some(i));
        assert_eq!(
            d.report_piece(a, i, piece),
            PieceOutcome::Verified { offset: 4 * i }
        );
    }
    assert_eq!(
        d.remove_session(a),
        Progress::Complete {
            total_bytes_written: 10
        }
    );
}

#[test]
fn release_returns_the_piece_and_keeps_the_session() {
    let mut d = download_of_content();
    let a = d.add_session();
    assert_eq!(d.claim_next(a), Some(0));
    d.release(a);
    assert_eq!(d.piece_state(0), Some(PieceAssignment::Pending));
    assert!(d.is_idle(a));
    assert_eq!(d.progress(), Progress::Running);
    assert_eq!(d.claim_next(a), Some(0));
    d.release(99);
    assert_eq!(d.piece_state(0), Some(PieceAssignment::InFlight(a)));
}

#[test]
fn piece_matches_its_hash_only() {
    let hashes = Hashes(vec![sha1(b"abcd"), sha1(b"efgh")]);
    assert!(piece_matches(&hashes, 0, b"abcd"));
    assert!(piece_matches(&hashes, 1, b"efgh"));
    assert!(!piece_matches(&hashes, 0, b"efgh"));
    assert!(!piece_matches(&hashes, 1, b"efg"));
    assert!(!piece_matches(&hashes, 2, b"abcd"));
    assert!(digest_matches(&hashes, 0, &sha1(b"abcd")));
    assert!(!digest_matches(&hashes, 0, &[0; 20]));
    assert!(!digest_matches(&hashes, 2, &sha1(b"abcd")));
    let empty: [u8; 20] = [
        0xda, 0x39, 0xa3, 0xee, 0x5e, 0x6b, 0x4b, 0x0d, 0x32, 0x55, 0xbf, 0xef, 0x95, 0x60, 0x18,
        0x90, 0xaf, 0xd8, 0x07, 0x09,
    ];
    assert!(piece_matches(&Hashes(vec![empty]), 0, b""));
}
