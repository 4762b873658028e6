use bittorrent::bencode::encode;
use bittorrent::hashes::Hashes;
use bittorrent::torrent::{join_path, File, Info, Keys, Torrent};
use sha1::{Digest, Sha1};

fn single_file() -> Torrent {
    Torrent {
        announce: String::from("http://tracker.example/announce"),
        info: Info {
            name: String::from("sample.txt"),
            plength: 32768,
            pieces: Hashes(vec![[0xaa; 20], [0xbb; 20], [0xcc; 20]]),
            keys: Keys::SingleFile { length: 92063 },
        },
    }
}

fn multi_file() -> Torrent {
    Torrent {
        announce: String::from("http://tracker.example/announce"),
        info: Info {
            name: String::from("dir"),
            plength: 4,
            pieces: Hashes(vec![[1; 20], [2; 20]]),
            keys: Keys::MultiFile {
                files: vec![
                    File {
                        length: 3,
                        path: vec![String::from("a"), String::from("b")],
                    },
                    File {
                        length: 4,
                        path: vec![String::from("c")],
                    },
                ],
            },
        },
    }
}

fn single_file_info_bytes() -> Vec<u8> {
    let mut expected = b"d6:lengthi92063e4:name10:sample.txt12:piece lengthi32768e6:pieces60:".to_vec();
    expected.extend_from_slice(&[0xaa; 20]);
    expected.extend_from_slice(&[0xbb; 20]);
    expected.extend_from_slice(&[0xcc; 20]);
    expected.push(b'e');
    expected
}

fn multi_file_info_bytes() -> Vec<u8> {
    let mut expected =
        b"d5:filesld6:lengthi3e4:pathl1:a1:beed6:lengthi4e4:pathl1:ceee4:name3:dir12:piece lengthi4e6:pieces40:"
            .to_vec();
    expected.extend_from_slice(&[1; 20]);
    expected.extend_from_slice(&[2; 20]);
    expected.push(b'e');
    expected
}

#[test]
fn info_dictionary_of_single_file() {
    let t = single_file();
    assert!(t.info.is_encodable());
    assert_eq!(encode(&t.info.to_bencode()), single_file_info_bytes());
}

#[test]
fn info_dictionary_of_several_files() {
    let t = multi_file();
    assert!(t.info.is_encodable());
    assert_eq!(encode(&t.info.to_bencode()), multi_file_info_bytes());
}

#[test]
fn info_hash_is_sha1_of_encoded_info() {
    let t = single_file();
    let expected: [u8; 20] = Sha1::digest(single_file_info_bytes()).into();
    assert_eq!(t.info_hash(), expected);
    let m = multi_file();
    let expected: [u8; 20] = Sha1::digest(multi_file_info_bytes()).into();
    assert_eq!(m.info_hash(), expected);
    assert_ne!(t.info_hash(), m.info_hash());
}

#[test]
fn info_hash_known_answer() {
    let t = Torrent {
        announce: String::new(),
        info: Info {
            name: String::from("a"),
            plength: 1,
            pieces: Hashes(vec![]),
            keys: Keys::SingleFile { length: 0 },
        },
    };
    let encoded = encode(&t.info.to_bencode());
    assert_eq!(
        encoded,
        b"d6:lengthi0e4:name1:a12:piece lengthi1e6:pieces0:e".to_vec()
    );
    let expected: [u8; 20] = Sha1::digest(&encoded).into();
    assert_eq!(t.info_hash(), expected);
    assert_ne!(t.info_hash().to_vec(), encoded);
}

#[test]
fn info_hash_does_not_depend_on_announce() {
    let a = single_file();
    let mut b = single_file();
    b.announce = String::from("http://other.example/");
    assert_eq!(a.info_hash(), b.info_hash());
}

#[test]
fn lengths_beyond_a_bencode_integer_are_not_encodable() {
    let mut t = single_file();
    t.info.plength = usize::MAX;
    assert_eq!(t.info.is_encodable(), (usize::MAX as u128) <= i64::MAX as u128);
    let mut t = multi_file();
    if let Keys::MultiFile { files } = &mut t.info.keys {
        files[1].length = usize::MAX;
    }
    assert_eq!(t.info.is_encodable(), (usize::MAX as u128) <= i64::MAX as u128);
}

#[test]
fn length_of_single_file() {
    assert_eq!(single_file().length(), 92063);
    assert_eq!(single_file().checked_length(), Some(92063));
}

#[test]
fn length_of_several_files_is_their_sum() {
    assert_eq!(multi_file().length(), 7);
    assert_eq!(multi_file().checked_length(), Some(7));
    let mut t = multi_file();
    t.info.keys = Keys::MultiFile { files: vec![] };
    assert_eq!(t.length(), 0);
}

#[test]
fn checked_length_fails_on_overflow() {
    let mut t = multi_file();
    t.info.keys = Keys::MultiFile {
        files: vec![
            File {
                length: usize::MAX,
                path: vec![String::from("a")],
            },
            File {
                length: 1,
                path: vec![String::from("b")],
            },
        ],
    };
    assert_eq!(t.checked_length(), None);
}

#[test]
fn tree_of_single_file_is_its_name() {
    assert_eq!(single_file().tree("/"), vec![String::from("sample.txt")]);
}

#[test]
fn tree_of_several_files_joins_paths() {
    assert_eq!(
        multi_file().tree("/"),
        vec![String::from("a/b"), String::from("c")]
    );
    assert_eq!(
        multi_file().tree("\\"),
        vec![String::from("a\\b"), String::from("c")]
    );
}

#[test]
fn join_path_puts_separator_between_parts() {
    assert_eq!(join_path(&vec![], "/"), "");
    assert_eq!(join_path(&vec![String::from("x")], "/"), "x");
    assert_eq!(
        join_path(
            &vec![String::from("x"), String::from("y"), String::from("z")],
            "::"
        ),
        "x::y::z"
    );
    assert_eq!(
        join_path(&vec![String::from(""), String::from("")], "/"),
        "/"
    );
}
