use bittorrent::piece::{block_at, block_count, chunk_length, count_chunks, piece_size, Block};
use bittorrent::BLOCK_MAX;

#[test]
fn block_max_is_sixteen_kibibytes() {
    assert_eq!(BLOCK_MAX, 1 << 14);
}

#[test]
fn chunk_count_rounds_up() {
    assert_eq!(count_chunks(0, 4), 0);
    assert_eq!(count_chunks(1, 4), 1);
    assert_eq!(count_chunks(4, 4), 1);
    assert_eq!(count_chunks(5, 4), 2);
    assert_eq!(count_chunks(10, 4), 3);
    assert_eq!(count_chunks(usize::MAX, 1), usize::MAX);
    assert_eq!(count_chunks(usize::MAX, usize::MAX), 1);
    assert_eq!(block_count(262144, BLOCK_MAX), 16);
    assert_eq!(block_count(262145, BLOCK_MAX), 17);
    assert_eq!(block_count(1, BLOCK_MAX), 1);
}

#[test]
fn last_chunk_holds_the_rest() {
    assert_eq!(chunk_length(10, 4, 0), 4);
    assert_eq!(chunk_length(10, 4, 1), 4);
    assert_eq!(chunk_length(10, 4, 2), 2);
    assert_eq!(chunk_length(8, 4, 1), 4);
    assert_eq!(chunk_length(3, 4, 0), 3);
}

#[test]
fn piece_sizes_of_a_file() {
    assert_eq!(piece_size(0, 92063, 32768), 32768);
    assert_eq!(piece_size(1, 92063, 32768), 32768);
    assert_eq!(piece_size(2, 92063, 32768), 92063 - 2 * 32768);
    assert_eq!(piece_size(2, 3 * 32768, 32768), 32768);
}

#[test]
fn blocks_tile_the_piece() {
    for size in [1usize, 5, 16383, 16384, 16385, 32768, 40000, 262144] {
        let n = block_count(size, BLOCK_MAX);
        assert_eq!(n, (size + BLOCK_MAX - 1) / BLOCK_MAX);
        let mut next = 0;
        for i in 0..n {
            let block = block_at(7, size, BLOCK_MAX, i);
            assert_eq!(block.piece_index, 7);
            assert_eq!(block.begin, next);
            if i + 1 < n {
                assert_eq!(block.length, BLOCK_MAX);
            }
            assert!(block.length > 0);
            next += block.length;
        }
        assert_eq!(next, size);
    }
}

#[test]
fn blocks_laid_end_to_end_are_the_piece() {
    let data: Vec<u8> = (0..50u8).collect();
    for block_max in [1usize, 3, 7, 25, 50, 64] {
        let n = count_chunks(data.len(), block_max);
        let mut joined = Vec::new();
        for i in 0..n {
            let block = block_at(0, data.len(), block_max, i);
            joined.extend_from_slice(&data[block.begin..block.begin + block.length]);
        }
        assert_eq!(joined, data);
    }
}

#[test]
fn block_of_exact_multiple() {
    assert_eq!(
        block_at(3, 32768, BLOCK_MAX, 1),
        Block {
            piece_index: 3,
            begin: 16384,
            length: 16384
        }
    );
    assert_eq!(
        block_at(3, 32769, BLOCK_MAX, 2),
        Block {
            piece_index: 3,
            begin: 32768,
            length: 1
        }
    );
}
