use bittorrent::hashes::{Hashes, InvalidLength, HASH_LEN};

fn numbered(n: usize) -> Vec<u8> {
    (0..n).map(|i| (i % 251) as u8).collect()
}

#[test]
fn hash_length_is_twenty() {
    assert_eq!(HASH_LEN, 20);
}

#[test]
fn empty_byte_string_holds_no_hashes() {
    let hashes = Hashes::from_bytes(&[]).unwrap();
    assert_eq!(hashes.len(), 0);
    assert_eq!(hashes.to_bytes(), Vec::<u8>::new());
    assert_eq!(hashes.get(0), None);
}

#[test]
fn splits_into_hashes_in_order() {
    let bytes = numbered(60);
    let hashes = Hashes::from_bytes(&bytes).unwrap();
    assert_eq!(hashes.len(), 3);
    for i in 0..3 {
        assert_eq!(&hashes.0[i][..], &bytes[20 * i..20 * i + 20]);
        assert_eq!(hashes.get(i).unwrap().to_vec(), bytes[20 * i..20 * i + 20].to_vec());
    }
    assert_eq!(hashes.get(3), None);
}

#[test]
fn joining_gives_the_bytes_back() {
    for n in [0usize, 1, 2, 7] {
        let bytes = numbered(20 * n);
        let hashes = Hashes::from_bytes(&bytes).unwrap();
        assert_eq!(hashes.len(), n);
        assert_eq!(hashes.to_bytes(), bytes);
    }
}

#[test]
fn splitting_joined_hashes_gives_them_back() {
    let hashes = Hashes(vec![[1u8; 20], [2u8; 20], [3u8; 20]]);
    let bytes = hashes.to_bytes();
    assert_eq!(bytes.len(), 60);
    assert_eq!(Hashes::from_bytes(&bytes), Ok(hashes));
}

#[test]
fn rejects_length_that_is_no_multiple_of_twenty() {
    for n in [1usize, 19, 21, 39, 41, 59] {
        assert_eq!(
            Hashes::from_bytes(&numbered(n)),
            Err(InvalidLength { length: n })
        );
    }
}
