//! The piece-hash table of a torrent: one 20-byte SHA-1 hash per piece, kept in the
//! metainfo file as a single byte string of all the hashes end to end.

use vstd::prelude::*;

verus! {

/// Number of bytes in one hash.
pub const HASH_LEN: usize = 20;

/// The hashes of a torrent's pieces, by piece index.
#[derive(Debug, Clone, PartialEq, Eq)]
pub struct Hashes(pub Vec<[u8; 20]>);

/// A byte string whose length is no multiple of 20 holds no whole number of hashes.
#[derive(Debug, Clone, Copy, PartialEq, Eq, Structural)]
pub struct InvalidLength {
    /// Length of the byte string that was refused.
    pub length: usize,
}

/// The hashes that `bytes` holds: its consecutive runs of 20 bytes, in order.
pub open spec fn split_hashes(bytes: Seq<u8>) -> Seq<Seq<u8>> {
    Seq::new(bytes.len() / 20, |i: int| bytes.subrange(20 * i, 20 * i + 20))
}

/// The hashes laid end to end.
pub open spec fn join_hashes(hashes: Seq<Seq<u8>>) -> Seq<u8>
    decreases hashes.len(),
{
    if hashes.len() == 0 {
        Seq::<u8>::empty()
    } else {
        join_hashes(hashes.drop_last()) + hashes.last()
    }
}

impl View for Hashes {
    type V = Seq<Seq<u8>>;

    open spec fn view(&self) -> Seq<Seq<u8>> {
        Seq::new(self.0@.len(), |i: int| self.0@[i]@)
    }
}

/// The first `k` hashes of a byte string, laid end to end, are its first `20 k`
/// bytes.
proof fn lemma_join_split_prefix(bytes: Seq<u8>, k: nat)
    requires
        k <= bytes.len() / 20,
    ensures
        join_hashes(split_hashes(bytes).take(k as int)) == bytes.take(20 * k as int),
    decreases k,
{
    let front = split_hashes(bytes).take(k as int);
    if k == 0 {
        assert(bytes.take(0) =~= Seq::<u8>::empty());
    } else {
        lemma_join_split_prefix(bytes, (k - 1) as nat);
        assert(front.drop_last() =~= split_hashes(bytes).take(k - 1));
        assert(front.last() == bytes.subrange(20 * (k - 1), 20 * (k - 1) + 20));
        assert(bytes.take(20 * (k - 1)) + bytes.subrange(20 * (k - 1), 20 * (k - 1) + 20)
            =~= bytes.take(20 * k as int));
    }
}

/// Splitting a byte string of `20 n` bytes gives `n` hashes of 20 bytes, and laying
/// them end to end again gives the byte string back.
pub proof fn lemma_join_split(bytes: Seq<u8>)
    requires
        bytes.len() % 20 == 0,
    ensures
        split_hashes(bytes).len() * 20 == bytes.len(),
        forall|i: int|
            0 <= i < split_hashes(bytes).len() ==> (#[trigger] split_hashes(bytes)[i]).len() == 20,
        join_hashes(split_hashes(bytes)) == bytes,
{
    let n = bytes.len() / 20;
    lemma_join_split_prefix(bytes, n);
    assert(split_hashes(bytes).take(n as int) =~= split_hashes(bytes));
    assert(bytes.take(20 * n as int) =~= bytes);
}

/// Hashes laid end to end take 20 bytes each, and splitting the result gives the
/// hashes back.
pub proof fn lemma_split_join(hashes: Seq<Seq<u8>>)
    requires
        forall|i: int| 0 <= i < hashes.len() ==> (#[trigger] hashes[i]).len() == 20,
    ensures
        join_hashes(hashes).len() == 20 * hashes.len(),
        split_hashes(join_hashes(hashes)) == hashes,
    decreases hashes.len(),
{
    if hashes.len() == 0 {
        assert(split_hashes(join_hashes(hashes)) =~= hashes);
    } else {
        let front = hashes.drop_last();
        lemma_split_join(front);
        let joined = join_hashes(hashes);
        assert(joined.len() == 20 * hashes.len());
        assert forall|i: int| 0 <= i < hashes.len() implies joined.subrange(20 * i, 20 * i + 20)
            == hashes[i] by {
            if i < front.len() {
                assert(joined.subrange(20 * i, 20 * i + 20) =~= join_hashes(front).subrange(
                    20 * i,
                    20 * i + 20,
                ));
                assert(split_hashes(join_hashes(front))[i] == front[i]);
            } else {
                assert(joined.subrange(20 * i, 20 * i + 20) =~= hashes.last());
            }
        }
        assert(split_hashes(joined) =~= hashes);
    }
}

impl Hashes {
    /// Number of hashes, which is the number of pieces.
    pub fn len(&self) -> (n: usize)
        ensures
            n == self@.len(),
    {
        self.0.len()
    }

    /// Reads the hashes out of the byte string that holds them end to end. Fails
    /// exactly where the length of `bytes` is no multiple of 20; for `20 n` bytes
    /// it gives the `n` hashes in order.
    pub fn from_bytes(bytes: &[u8]) -> (r: Result<Hashes, InvalidLength>)
        ensures
            (r is Err) == (bytes.len() % 20 != 0),
            r matches Ok(hashes) ==> hashes@ == split_hashes(bytes@) && hashes@.len() * 20
                == bytes.len(),
            r matches Err(e) ==> e.length == bytes.len(),
    {
        if bytes.len() % 20 != 0 {
            return Err(InvalidLength { length: bytes.len() });
        }
        let n: usize = bytes.len() / 20;
        let mut hashes: Vec<[u8; 20]> = Vec::new();
        let mut i: usize = 0;
        while i < n
            invariant
                i <= n,
                n * 20 == bytes.len(),
                hashes@.len() == i,
                forall|k: int| 0 <= k < i ==> (#[trigger] hashes@[k])@ == bytes@.subrange(
                    20 * k,
                    20 * k + 20,
                ),
            decreases n - i,
        {
            let mut hash: [u8; 20] = [0u8; 20];
            let mut j: usize = 0;
            while j < 20
                invariant
                    j <= 20,
                    i < n,
                    n * 20 == bytes.len(),
                    forall|k: int| 0 <= k < j ==> hash@[k] == bytes@[20 * i + k],
                decreases 20 - j,
            {
                hash[j] = bytes[20 * i + j];
                j = j + 1;
            }
            assert(hash@ =~= bytes@.subrange(20 * i, 20 * i + 20));
            hashes.push(hash);
            i = i + 1;
        }
        let result = Hashes(hashes);
        assert(result@ =~= split_hashes(bytes@));
        Ok(result)
    }

    /// The hashes end to end, as the metainfo file holds them.
    pub fn to_bytes(&self) -> (bytes: Vec<u8>)
        ensures
            bytes@ == join_hashes(self@),
            bytes@.len() == 20 * self@.len(),
    {
        let mut bytes: Vec<u8> = Vec::new();
        let mut i: usize = 0;
        while i < self.0.len()
            invariant
                i <= self.0.len(),
                bytes@ == join_hashes(self@.take(i as int)),
                bytes@.len() == 20 * i,
            decreases self.0.len() - i,
        {
            assert(self@.take(i + 1).drop_last() =~= self@.take(i as int));
            assert(self@.take(i + 1).last() == self.0@[i as int]@);
            bytes.extend_from_slice(self.0[i].as_slice());
            i = i + 1;
        }
        assert(self@.take(self.0.len() as int) =~= self@);
        bytes
    }

    /// The hash of piece `index`.
    pub fn get(&self, index: usize) -> (hash: Option<[u8; 20]>)
        ensures
            match hash {
                Some(h) => index < self@.len() && h@ == self@[index as int],
                None => index >= self@.len(),
            },
    {
        if index < self.0.len() {
            Some(self.0[index])
        } else {
            None
        }
    }
}

} // verus!
