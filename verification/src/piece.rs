//! How a run of bytes falls into fixed-size chunks: a file into pieces, a piece into
//! blocks. All chunks have the chunk size but the last, which holds what is left.

use vstd::prelude::*;

verus! {

/// Number of chunks of at most `chunk` bytes that `total` bytes fall into: the
/// quotient rounded up.
pub open spec fn chunk_count(total: nat, chunk: nat) -> nat
    recommends
        chunk > 0,
{
    if total % chunk == 0 {
        total / chunk
    } else {
        total / chunk + 1
    }
}

/// Offset of chunk `i` within the whole.
pub open spec fn chunk_begin(chunk: nat, i: nat) -> nat {
    i * chunk
}

/// Length of chunk `i`: `chunk` for every chunk but the last; the last holds the
/// remainder, or `chunk` where the remainder is zero.
pub open spec fn chunk_len(total: nat, chunk: nat, i: nat) -> nat
    recommends
        chunk > 0,
        i < chunk_count(total, chunk),
{
    if i + 1 == chunk_count(total, chunk) {
        if total % chunk == 0 {
            chunk
        } else {
            total % chunk
        }
    } else {
        chunk
    }
}

/// The first `n` chunks of `data`, laid end to end.
pub open spec fn chunks_joined(data: Seq<u8>, chunk: nat, n: nat) -> Seq<u8>
    decreases n,
{
    if n == 0 {
        Seq::<u8>::empty()
    } else {
        let i = (n - 1) as nat;
        let begin = chunk_begin(chunk, i) as int;
        chunks_joined(data, chunk, i) + data.subrange(
            begin,
            begin + chunk_len(data.len(), chunk, i),
        )
    }
}

/// Rounded-up quotient, the usual way: `chunk_count` is `(total + chunk - 1) / chunk`.
pub proof fn lemma_chunk_count_is_ceiling(total: nat, chunk: nat)
    requires
        chunk > 0,
    ensures
        chunk_count(total, chunk) == (total + chunk - 1) / (chunk as int),
        (chunk_count(total, chunk) == 0) == (total == 0),
        total <= chunk_count(total, chunk) * chunk < total + chunk,
{
    let q = total / chunk;
    let r = total % chunk;
    assert(total == q * chunk + r && 0 <= r < chunk) by (nonlinear_arith)
        requires
            chunk > 0,
            q == total / chunk,
            r == total % chunk,
    ;
    assert((q == 0) == (q * chunk == 0)) by (nonlinear_arith)
        requires
            chunk > 0,
            q >= 0,
    ;
    if r == 0 {
        assert((q * chunk + chunk - 1) / (chunk as int) == q) by (nonlinear_arith)
            requires
                chunk > 0,
                q >= 0,
        ;
    } else {
        assert((q * chunk + r + chunk - 1) / (chunk as int) == q + 1) by (nonlinear_arith)
            requires
                chunk > 0,
                0 < r < chunk,
                q >= 0,
        ;
        assert((q + 1) * chunk == q * chunk + chunk) by (nonlinear_arith);
    }
}

/// Each chunk starts where the one before it ends, and the last ends at `total`.
pub proof fn lemma_chunks_adjacent(total: nat, chunk: nat, i: nat)
    requires
        chunk > 0,
        i < chunk_count(total, chunk),
    ensures
        0 < chunk_len(total, chunk, i) <= chunk,
        i + 1 < chunk_count(total, chunk) ==> chunk_begin(chunk, i) + chunk_len(total, chunk, i)
            == chunk_begin(chunk, i + 1),
        i + 1 == chunk_count(total, chunk) ==> chunk_begin(chunk, i) + chunk_len(total, chunk, i)
            == total,
        chunk_begin(chunk, i) + chunk_len(total, chunk, i) <= total,
{
    let q = total / chunk;
    let r = total % chunk;
    assert(total == q * chunk + r && 0 <= r < chunk) by (nonlinear_arith)
        requires
            chunk > 0,
            q == total / chunk,
            r == total % chunk,
    ;
    assert((i + 1) * chunk == i * chunk + chunk) by (nonlinear_arith);
    if i + 1 < chunk_count(total, chunk) {
        assert((i + 1) * chunk <= q * chunk) by (nonlinear_arith)
            requires
                i + 1 <= q,
                chunk > 0,
        ;
    } else if r == 0 {
        assert(i + 1 == q);
        assert((i + 1) * chunk == q * chunk);
    } else {
        assert(i == q);
        assert(i * chunk == q * chunk);
    }
}

/// The first `n` chunks laid end to end are the bytes before chunk `n`.
proof fn lemma_chunks_joined_prefix(data: Seq<u8>, chunk: nat, n: nat)
    requires
        chunk > 0,
        n <= chunk_count(data.len(), chunk),
    ensures
        n < chunk_count(data.len(), chunk) ==> chunks_joined(data, chunk, n) == data.subrange(
            0,
            chunk_begin(chunk, n) as int,
        ),
        n == chunk_count(data.len(), chunk) ==> chunks_joined(data, chunk, n) == data,
    decreases n,
{
    if n == 0 {
        assert(chunk_begin(chunk, 0) == 0);
        assert(data.subrange(0, 0) =~= Seq::<u8>::empty());
        if chunk_count(data.len(), chunk) == 0 {
            lemma_chunk_count_is_ceiling(data.len(), chunk);
            assert(data =~= Seq::<u8>::empty());
        }
    } else {
        let i = (n - 1) as nat;
        lemma_chunks_joined_prefix(data, chunk, i);
        lemma_chunks_adjacent(data.len(), chunk, i);
        let begin = chunk_begin(chunk, i) as int;
        let end = begin + chunk_len(data.len(), chunk, i);
        assert(data.subrange(0, begin) + data.subrange(begin, end) =~= data.subrange(0, end));
        if n == chunk_count(data.len(), chunk) {
            assert(data.subrange(0, end) =~= data);
        }
    }
}

/// Block decomposition: `total` bytes in chunks of `chunk` make ⌈total / chunk⌉
/// chunks, every one but the last has exactly `chunk` bytes, and the chunks of any
/// `data` of that length, laid end to end in order, are `data` again.
pub proof fn lemma_chunks_cover(data: Seq<u8>, chunk: nat)
    requires
        chunk > 0,
    ensures
        chunk_count(data.len(), chunk) == (data.len() + chunk - 1) / (chunk as int),
        forall|i: nat|
            i + 1 < chunk_count(data.len(), chunk) ==> #[trigger] chunk_len(data.len(), chunk, i)
                == chunk,
        chunks_joined(data, chunk, chunk_count(data.len(), chunk)) == data,
        chunks_joined(data, chunk, chunk_count(data.len(), chunk)).len() == data.len(),
{
    lemma_chunk_count_is_ceiling(data.len(), chunk);
    lemma_chunks_joined_prefix(data, chunk, chunk_count(data.len(), chunk));
}

/// A sub-range of a piece: the unit of one request to a peer.
#[derive(Clone, Copy, Debug, PartialEq, Eq, Structural)]
pub struct Block {
    /// Index of the piece that the block belongs to.
    pub piece_index: usize,
    /// Offset of the block's first byte within the piece.
    pub begin: usize,
    /// Number of bytes in the block.
    pub length: usize,
}

/// Number of chunks of at most `chunk` bytes in `total` bytes.
pub fn count_chunks(total: usize, chunk: usize) -> (n: usize)
    requires
        chunk > 0,
    ensures
        n == chunk_count(total as nat, chunk as nat),
{
    let q: usize = total / chunk;
    if total % chunk == 0 {
        q
    } else {
        assert(q * chunk <= total) by (nonlinear_arith)
            requires
                q == total as int / chunk as int,
                chunk > 0,
        ;
        assert(q < total) by (nonlinear_arith)
            requires
                q * chunk <= total,
                chunk > 0,
                total as int % chunk as int != 0,
                q == total as int / chunk as int,
        ;
        q + 1
    }
}

/// Length of chunk `i` out of the chunks of `total` bytes.
pub fn chunk_length(total: usize, chunk: usize, i: usize) -> (len: usize)
    requires
        chunk > 0,
        i < chunk_count(total as nat, chunk as nat),
    ensures
        len == chunk_len(total as nat, chunk as nat, i as nat),
{
    let n: usize = count_chunks(total, chunk);
    if i == n - 1 {
        let rest: usize = total % chunk;
        if rest == 0 {
            chunk
        } else {
            rest
        }
    } else {
        chunk
    }
}

/// Number of bytes in piece `piece_index` of a file of `total_length` bytes cut
/// into pieces of `piece_length` bytes.
pub fn piece_size(piece_index: usize, total_length: usize, piece_length: usize) -> (size: usize)
    requires
        piece_length > 0,
        piece_index < chunk_count(total_length as nat, piece_length as nat),
    ensures
        size == chunk_len(total_length as nat, piece_length as nat, piece_index as nat),
        0 < size <= piece_length,
{
    proof {
        lemma_chunks_adjacent(total_length as nat, piece_length as nat, piece_index as nat);
    }
    chunk_length(total_length, piece_length, piece_index)
}

/// Number of blocks of at most `block_max` bytes that a piece of `piece_size` bytes
/// is asked for in.
pub fn block_count(piece_size: usize, block_max: usize) -> (n: usize)
    requires
        block_max > 0,
    ensures
        n == chunk_count(piece_size as nat, block_max as nat),
{
    count_chunks(piece_size, block_max)
}

/// Block `i` of piece `piece_index`, which has `piece_size` bytes.
pub fn block_at(piece_index: usize, piece_size: usize, block_max: usize, i: usize) -> (block: Block)
    requires
        block_max > 0,
        i < chunk_count(piece_size as nat, block_max as nat),
    ensures
        block.piece_index == piece_index,
        block.begin == chunk_begin(block_max as nat, i as nat),
        block.length == chunk_len(piece_size as nat, block_max as nat, i as nat),
        block.begin + block.length <= piece_size,
{
    proof {
        lemma_chunks_adjacent(piece_size as nat, block_max as nat, i as nat);
    }
    let length: usize = chunk_length(piece_size, block_max, i);
    assert(i * block_max <= usize::MAX) by (nonlinear_arith)
        requires
            i * block_max + length <= piece_size,
            piece_size <= usize::MAX,
            length >= 0,
    ;
    Block { piece_index, begin: i * block_max, length }
}

} // verus!
