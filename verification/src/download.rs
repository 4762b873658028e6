//! The bookkeeping of a download over many peers: which pieces are still to be had,
//! which are with a peer session, and which have been had and verified.
//!
//! The table of piece states is the one thing that every session's outcome touches.
//! It lives in a single value, and every change to it is one call: a piece is
//! claimed, reported or released as a whole, so no two sessions ever hold the same
//! piece. The sessions themselves, and the sink that verified pieces are written
//! to, live with the caller.

use crate::digest::{sha1, sha1_digest};
use crate::hashes::Hashes;
use crate::peer::bytes_equal;
use crate::piece::{chunk_begin, chunk_count, chunk_len, count_chunks, lemma_chunks_adjacent,
    piece_size};
use vstd::prelude::*;

verus! {

/// Where a piece stands.
#[derive(Clone, Copy, Debug, PartialEq, Eq, Structural)]
pub enum PieceAssignment {
    /// Nobody is fetching the piece.
    Pending,
    /// The session with this identifier is fetching the piece.
    InFlight(usize),
    /// The piece was fetched and its bytes hash to the expected value.
    Verified,
}

/// What became of a piece that a session handed in.
#[derive(Clone, Copy, Debug, PartialEq, Eq, Structural)]
pub enum PieceOutcome {
    /// The bytes are the piece: write them to the output at `offset`.
    Verified { offset: usize },
    /// The bytes are not the piece: they have the wrong length or the wrong hash.
    /// The piece is pending again. The download goes on.
    IntegrityFailure { index: usize },
    /// The session does not hold that piece: nothing changed.
    NotInFlight,
}

/// Why a download ended without all of its pieces.
#[derive(Clone, Copy, Debug, PartialEq, Eq, Structural)]
pub enum DownloadError {
    /// No session is left, and `piece` is the first piece that is not verified.
    NoPeersAvailable { piece: usize },
}

/// How far a download has come.
#[derive(Clone, Copy, Debug, PartialEq, Eq, Structural)]
pub enum Progress {
    /// Every piece is verified; so many bytes were written.
    Complete { total_bytes_written: usize },
    /// There are pieces left and sessions to fetch them.
    Running,
    /// There are pieces left and no session to fetch them.
    Failed(DownloadError),
}

/// The state of a download.
pub struct Orchestrator {
    pieces: Vec<PieceAssignment>,
    active: Vec<bool>,
    hashes: Hashes,
    piece_length: usize,
    total_length: usize,
}

/// The mathematical value of a download's state.
pub struct OrchestratorView {
    /// The state of each piece, by piece index.
    pub pieces: Seq<PieceAssignment>,
    /// For each session identifier given out so far, whether the session is still
    /// in the pool.
    pub active: Seq<bool>,
    /// The expected hash of each piece.
    pub hashes: Seq<Seq<u8>>,
    /// Number of bytes in each piece but the last.
    pub piece_length: nat,
    /// Number of bytes in the whole content.
    pub total_length: nat,
}

/// Index of the first pending piece at or after `from`.
pub open spec fn first_pending(pieces: Seq<PieceAssignment>, from: nat) -> Option<nat>
    decreases pieces.len() - from,
{
    if from >= pieces.len() {
        None
    } else if pieces[from as int] is Pending {
        Some(from)
    } else {
        first_pending(pieces, from + 1)
    }
}

/// Index of the first piece at or after `from` that is not verified.
pub open spec fn first_unverified(pieces: Seq<PieceAssignment>, from: nat) -> Option<nat>
    decreases pieces.len() - from,
{
    if from >= pieces.len() {
        None
    } else if !(pieces[from as int] is Verified) {
        Some(from)
    } else {
        first_unverified(pieces, from + 1)
    }
}

/// Whether `session` is fetching a piece.
pub open spec fn holds_piece(pieces: Seq<PieceAssignment>, session: usize) -> bool {
    exists|i: int| 0 <= i < pieces.len() && pieces[i] == PieceAssignment::InFlight(session)
}

/// The pieces with whatever `session` was fetching pending again.
pub open spec fn released(pieces: Seq<PieceAssignment>, session: usize) -> Seq<PieceAssignment> {
    Seq::new(
        pieces.len(),
        |i: int|
            if pieces[i] == PieceAssignment::InFlight(session) {
                PieceAssignment::Pending
            } else {
                pieces[i]
            },
    )
}

/// Whether any session is in the pool.
pub open spec fn any_active(active: Seq<bool>) -> bool {
    exists|s: int| 0 <= s < active.len() && active[s]
}

impl OrchestratorView {
    /// Number of pieces.
    pub open spec fn piece_count(self) -> nat {
        chunk_count(self.total_length, self.piece_length)
    }

    /// The table has one state and one hash for each piece of the content; a piece
    /// in flight is with a session of the pool; and no session has two pieces.
    pub open spec fn wf(self) -> bool {
        &&& self.piece_length > 0
        &&& self.pieces.len() == self.piece_count()
        &&& self.hashes.len() == self.piece_count()
        &&& forall|i: int|
            0 <= i < self.pieces.len() ==> (#[trigger] self.pieces[i] matches PieceAssignment::InFlight(
                s,
            ) ==> s < self.active.len() && self.active[s as int])
        &&& forall|i: int, j: int|
            0 <= i < j < self.pieces.len() && self.pieces[i] is InFlight ==> #[trigger] self.pieces[i]
                != #[trigger] self.pieces[j]
    }

    /// Every piece is verified.
    pub open spec fn complete(self) -> bool {
        first_unverified(self.pieces, 0) is None
    }

    /// Whether `session` may be handed a piece: it is in the pool and is fetching
    /// nothing.
    pub open spec fn idle(self, session: usize) -> bool {
        session < self.active.len() && self.active[session as int] && !holds_piece(
            self.pieces,
            session,
        )
    }

    /// Number of bytes in piece `index`.
    pub open spec fn piece_len(self, index: nat) -> nat {
        chunk_len(self.total_length, self.piece_length, index)
    }

    /// Whether `bytes` with digest `digest` are piece `index`: they have the length
    /// of the piece, and the digest is the hash that the table holds for it.
    pub open spec fn accepts(self, index: nat, length: nat, digest: Seq<u8>) -> bool {
        length == self.piece_len(index) && digest == self.hashes[index as int]
    }

    /// How far the download has come.
    pub open spec fn progress(self) -> Progress {
        match first_unverified(self.pieces, 0) {
            None => Progress::Complete { total_bytes_written: self.total_length as usize },
            Some(piece) => if any_active(self.active) {
                Progress::Running
            } else {
                Progress::Failed(DownloadError::NoPeersAvailable { piece: piece as usize })
            },
        }
    }
}

impl View for Orchestrator {
    type V = OrchestratorView;

    closed spec fn view(&self) -> OrchestratorView {
        OrchestratorView {
            pieces: self.pieces@,
            active: self.active@,
            hashes: self.hashes@,
            piece_length: self.piece_length as nat,
            total_length: self.total_length as nat,
        }
    }
}

/// The first pending piece, where it is found, is pending, and no piece before it
/// is.
pub proof fn lemma_first_pending(pieces: Seq<PieceAssignment>, from: nat)
    ensures
        match first_pending(pieces, from) {
            Some(i) => from <= i < pieces.len() && pieces[i as int] is Pending && forall|k: int|
                from <= k < i ==> !(#[trigger] pieces[k] is Pending),
            None => forall|k: int| from <= k < pieces.len() ==> !(#[trigger] pieces[k] is Pending),
        },
    decreases pieces.len() - from,
{
    if from < pieces.len() && !(pieces[from as int] is Pending) {
        lemma_first_pending(pieces, from + 1);
    }
}

/// The first piece that is not verified, where it is found, is not verified, and
/// every piece before it is.
pub proof fn lemma_first_unverified(pieces: Seq<PieceAssignment>, from: nat)
    ensures
        match first_unverified(pieces, from) {
            Some(i) => from <= i < pieces.len() && !(pieces[i as int] is Verified) && forall|k: int|
                from <= k < i ==> #[trigger] pieces[k] is Verified,
            None => forall|k: int| from <= k < pieces.len() ==> #[trigger] pieces[k] is Verified,
        },
    decreases pieces.len() - from,
{
    if from < pieces.len() && pieces[from as int] is Verified {
        lemma_first_unverified(pieces, from + 1);
    }
}

impl Orchestrator {
    /// The state of a download at its start: every piece pending, no session yet.
    /// There is one exactly where pieces have a length and `hashes` holds one hash
    /// for each piece that `total_length` bytes fall into.
    pub fn new(hashes: Hashes, piece_length: usize, total_length: usize) -> (r: Option<
        Orchestrator,
    >)
        ensures
            (r is Some) == (piece_length > 0 && hashes@.len() == chunk_count(
                total_length as nat,
                piece_length as nat,
            )),
            r matches Some(d) ==> d@.wf() && d@.hashes == hashes@ && d@.piece_length
                == piece_length && d@.total_length == total_length && d@.active.len() == 0
                && d@.pieces.len() == hashes@.len() && forall|i: int|
                0 <= i < d@.pieces.len() ==> #[trigger] d@.pieces[i] is Pending,
    {
        if piece_length == 0 {
            return None;
        }
        let n: usize = count_chunks(total_length, piece_length);
        if hashes.len() != n {
            return None;
        }
        let mut pieces: Vec<PieceAssignment> = Vec::new();
        let mut i: usize = 0;
        while i < n
            invariant
                i <= n,
                pieces@.len() == i,
                forall|k: int| 0 <= k < i ==> #[trigger] pieces@[k] is Pending,
            decreases n - i,
        {
            pieces.push(PieceAssignment::Pending);
            i = i + 1;
        }
        Some(Orchestrator { pieces, active: Vec::new(), hashes, piece_length, total_length })
    }

    /// Number of pieces.
    pub fn piece_count(&self) -> (n: usize)
        requires
            self@.wf(),
        ensures
            n == self@.piece_count(),
            n == self@.pieces.len(),
    {
        self.pieces.len()
    }

    /// Where piece `index` stands, if there is such a piece.
    pub fn piece_state(&self, index: usize) -> (state: Option<PieceAssignment>)
        ensures
            match state {
                Some(s) => index < self@.pieces.len() && s == self@.pieces[index as int],
                None => index >= self@.pieces.len(),
            },
    {
        if index < self.pieces.len() {
            Some(self.pieces[index])
        } else {
            None
        }
    }

    /// Number of bytes in piece `index`, if there is such a piece.
    pub fn piece_len(&self, index: usize) -> (len: Option<usize>)
        requires
            self@.wf(),
        ensures
            match len {
                Some(n) => index < self@.piece_count() && n == self@.piece_len(index as nat),
                None => index >= self@.piece_count(),
            },
    {
        if index < self.pieces.len() {
            Some(piece_size(index, self.total_length, self.piece_length))
        } else {
            None
        }
    }

    /// Takes a session that has completed its handshake into the pool, and gives it
    /// its identifier.
    pub fn add_session(&mut self) -> (session: usize)
        requires
            old(self)@.wf(),
            old(self)@.active.len() < usize::MAX,
        ensures
            final(self)@.wf(),
            session == old(self)@.active.len(),
            final(self)@ == (OrchestratorView {
                active: old(self)@.active.push(true),
                ..old(self)@
            }),
            final(self)@.idle(session),
    {
        let session: usize = self.active.len();
        self.active.push(true);
        proof {
            let pieces = self@.pieces;
            assert forall|i: int| 0 <= i < pieces.len() implies pieces[i]
                != PieceAssignment::InFlight(session) by {
                // a piece in flight is with a session that was in the pool before
                if pieces[i] is InFlight {
                    assert(old(self)@.pieces[i] matches PieceAssignment::InFlight(s) ==> s < old(
                        self,
                    )@.active.len());
                }
            }
        }
        session
    }

    /// Whether `session` is fetching a piece.
    fn session_holds(&self, session: usize) -> (holds: bool)
        ensures
            holds == holds_piece(self@.pieces, session),
    {
        let mut i: usize = 0;
        while i < self.pieces.len()
            invariant
                i <= self.pieces.len(),
                forall|k: int|
                    0 <= k < i ==> self.pieces@[k] != PieceAssignment::InFlight(session),
            decreases self.pieces.len() - i,
        {
            match self.pieces[i] {
                PieceAssignment::InFlight(s) => {
                    if s == session {
                        return true;
                    }
                },
                _ => {},
            }
            i = i + 1;
        }
        false
    }

    /// Whether `session` may be handed a piece.
    pub fn is_idle(&self, session: usize) -> (idle: bool)
        ensures
            idle == self@.idle(session),
    {
        session < self.active.len() && self.active[session] && !self.session_holds(session)
    }

    /// Hands `session` the pending piece with the lowest index, and marks the piece
    /// in flight with that session. Nothing is handed out, and nothing changes,
    /// where the session is not in the pool, is still fetching a piece, or where no
    /// piece is pending.
    pub fn claim_next(&mut self, session: usize) -> (claimed: Option<usize>)
        requires
            old(self)@.wf(),
        ensures
            final(self)@.wf(),
            match claimed {
                Some(index) => old(self)@.idle(session) && first_pending(old(self)@.pieces, 0)
                    == Some(index as nat) && final(self)@ == (OrchestratorView {
                    pieces: old(self)@.pieces.update(
                        index as int,
                        PieceAssignment::InFlight(session),
                    ),
                    ..old(self)@
                }),
                None => (!old(self)@.idle(session) || first_pending(old(self)@.pieces, 0) is None)
                    && final(self)@ == old(self)@,
            },
    {
        if !self.is_idle(session) {
            return None;
        }
        let mut i: usize = 0;
        while i < self.pieces.len()
            invariant
                i <= self.pieces.len(),
                self@ == old(self)@,
                self@.wf(),
                self@.idle(session),
                first_pending(self@.pieces, 0) == first_pending(self@.pieces, i as nat),
            decreases self.pieces.len() - i,
        {
            match self.pieces[i] {
                PieceAssignment::Pending => {
                    let ghost before = self@.pieces;
                    self.pieces[i] = PieceAssignment::InFlight(session);
                    proof {
                        let after = self@.pieces;
                        assert forall|a: int, b: int|
                            0 <= a < b < after.len() && after[a] is InFlight implies #[trigger] after[a]
                                != #[trigger] after[b] by {
                            assert(before[a] != PieceAssignment::InFlight(session));
                            assert(before[b] != PieceAssignment::InFlight(session));
                            if a != i && b != i {
                                assert(before[a] != before[b]);
                            }
                        }
                    }
                    return Some(i);
                },
                _ => {},
            }
            i = i + 1;
        }
        None
    }

    /// Takes in the bytes that `session` fetched as piece `index`: hashes them and
    /// records the result. The bytes are the piece exactly where the session holds
    /// the piece, the bytes have the length of the piece, and their SHA-1 digest is
    /// the hash that the table holds for the piece.
    pub fn report_piece(&mut self, session: usize, index: usize, bytes: &[u8]) -> (outcome:
        PieceOutcome)
        requires
            old(self)@.wf(),
        ensures
            final(self)@.wf(),
            outcome == old(self)@.outcome(session, index, bytes@.len(), sha1_digest(bytes@)),
            final(self)@ == old(self)@.recorded(session, index, bytes@.len(), sha1_digest(bytes@)),
    {
        let digest: [u8; 20] = sha1(bytes);
        self.record_digest(session, index, bytes.len(), &digest)
    }

    /// Records that `session` fetched `length` bytes with digest `digest` as piece
    /// `index`. Where the session holds the piece, the piece becomes verified if the
    /// length and the digest are those of the piece, and pending again if not.
    pub fn record_digest(
        &mut self,
        session: usize,
        index: usize,
        length: usize,
        digest: &[u8; 20],
    ) -> (outcome: PieceOutcome)
        requires
            old(self)@.wf(),
        ensures
            final(self)@.wf(),
            outcome == old(self)@.outcome(session, index, length as nat, digest@),
            final(self)@ == old(self)@.recorded(session, index, length as nat, digest@),
    {
        if index >= self.pieces.len() {
            return PieceOutcome::NotInFlight;
        }
        match self.pieces[index] {
            PieceAssignment::InFlight(s) => {
                if s != session {
                    return PieceOutcome::NotInFlight;
                }
            },
            _ => {
                return PieceOutcome::NotInFlight;
            },
        }
        proof {
            lemma_chunks_adjacent(
                self.total_length as nat,
                self.piece_length as nat,
                index as nat,
            );
        }
        let expected_len: usize = piece_size(index, self.total_length, self.piece_length);
        let matches: bool = length == expected_len && bytes_equal(
            digest.as_slice(),
            self.hashes.0[index].as_slice(),
        );
        assert(self.hashes@[index as int] == self.hashes.0@[index as int]@);
        if matches {
            self.pieces[index] = PieceAssignment::Verified;
            assert(index * self.piece_length <= usize::MAX) by (nonlinear_arith)
                requires
                    chunk_begin(self.piece_length as nat, index as nat) <= self.total_length,
                    self.total_length <= usize::MAX,
            ;
            PieceOutcome::Verified { offset: index * self.piece_length }
        } else {
            self.pieces[index] = PieceAssignment::Pending;
            PieceOutcome::IntegrityFailure { index }
        }
    }

    /// Takes back whatever `session` was fetching: the piece is pending again. The
    /// session stays in the pool. For a session that gave up on a piece, as after a
    /// timeout.
    pub fn release(&mut self, session: usize)
        requires
            old(self)@.wf(),
        ensures
            final(self)@.wf(),
            final(self)@ == (OrchestratorView {
                pieces: released(old(self)@.pieces, session),
                ..old(self)@
            }),
    {
        let mut i: usize = 0;
        while i < self.pieces.len()
            invariant
                i <= self.pieces.len(),
                self@.wf(),
                self@.pieces.len() == old(self)@.pieces.len(),
                self@.active == old(self)@.active,
                self@.hashes == old(self)@.hashes,
                self@.piece_length == old(self)@.piece_length,
                self@.total_length == old(self)@.total_length,
                forall|k: int|
                    0 <= k < i ==> self@.pieces[k] == released(old(self)@.pieces, session)[k],
                forall|k: int| i <= k < self.pieces.len() ==> self@.pieces[k] == old(self)@.pieces[k],
            decreases self.pieces.len() - i,
        {
            match self.pieces[i] {
                PieceAssignment::InFlight(s) => {
                    if s == session {
                        self.pieces[i] = PieceAssignment::Pending;
                    }
                },
                _ => {},
            }
            i = i + 1;
        }
        assert(self@.pieces =~= released(old(self)@.pieces, session));
    }

    /// Takes `session` out of the pool, as after a disconnect or a violation of the
    /// protocol: whatever it was fetching is pending again. Says how far the
    /// download has come: it has failed exactly where pieces are left and the pool
    /// is now empty.
    pub fn remove_session(&mut self, session: usize) -> (progress: Progress)
        requires
            old(self)@.wf(),
        ensures
            final(self)@.wf(),
            final(self)@ == (OrchestratorView {
                pieces: released(old(self)@.pieces, session),
                active: if session < old(self)@.active.len() {
                    old(self)@.active.update(session as int, false)
                } else {
                    old(self)@.active
                },
                ..old(self)@
            }),
            progress == final(self)@.progress(),
    {
        self.release(session);
        if session < self.active.len() {
            self.active[session] = false;
        }
        self.progress()
    }

    /// How far the download has come: complete, with the number of bytes written,
    /// where every piece is verified; failed where pieces are left and no session
    /// is in the pool; running otherwise.
    pub fn progress(&self) -> (progress: Progress)
        ensures
            progress == self@.progress(),
    {
        let mut i: usize = 0;
        while i < self.pieces.len()
            invariant
                i <= self.pieces.len(),
                first_unverified(self@.pieces, 0) == first_unverified(self@.pieces, i as nat),
            decreases self.pieces.len() - i,
        {
            match self.pieces[i] {
                PieceAssignment::Verified => {},
                _ => {
                    let mut s: usize = 0;
                    while s < self.active.len()
                        invariant
                            s <= self.active.len(),
                            i < self.pieces.len(),
                            first_unverified(self@.pieces, 0) == Some(i as nat),
                            forall|k: int| 0 <= k < s ==> !self.active@[k],
                        decreases self.active.len() - s,
                    {
                        if self.active[s] {
                            return Progress::Running;
                        }
                        s = s + 1;
                    }
                    return Progress::Failed(DownloadError::NoPeersAvailable { piece: i });
                },
            }
            i = i + 1;
        }
        Progress::Complete { total_bytes_written: self.total_length }
    }
}

impl OrchestratorView {
    /// What becomes of `length` bytes with digest `digest` that `session` hands in
    /// as piece `index`.
    pub open spec fn outcome(self, session: usize, index: usize, length: nat, digest: Seq<u8>)
        -> PieceOutcome {
        if index < self.pieces.len() && self.pieces[index as int] == PieceAssignment::InFlight(
            session,
        ) {
            if self.accepts(index as nat, length, digest) {
                PieceOutcome::Verified { offset: (index * self.piece_length) as usize }
            } else {
                PieceOutcome::IntegrityFailure { index }
            }
        } else {
            PieceOutcome::NotInFlight
        }
    }

    /// The state after `session` has handed in `length` bytes with digest `digest`
    /// as piece `index`.
    pub open spec fn recorded(self, session: usize, index: usize, length: nat, digest: Seq<u8>)
        -> OrchestratorView {
        if index < self.pieces.len() && self.pieces[index as int] == PieceAssignment::InFlight(
            session,
        ) {
            OrchestratorView {
                pieces: self.pieces.update(
                    index as int,
                    if self.accepts(index as nat, length, digest) {
                        PieceAssignment::Verified
                    } else {
                        PieceAssignment::Pending
                    },
                ),
                ..self
            }
        } else {
            self
        }
    }
}

/// Verified is final: whatever a session hands in, and whichever session is
/// released or leaves, a verified piece stays verified; and it is never handed out
/// again.
pub proof fn lemma_verified_is_final(
    d: OrchestratorView,
    i: int,
    session: usize,
    index: usize,
    length: nat,
    digest: Seq<u8>,
)
    requires
        0 <= i < d.pieces.len(),
        d.pieces[i] is Verified,
    ensures
        d.recorded(session, index, length, digest).pieces[i] is Verified,
        released(d.pieces, session)[i] is Verified,
        first_pending(d.pieces, 0) != Some(i as nat),
{
    lemma_first_pending(d.pieces, 0);
}

/// A piece that is handed in comes out verified or pending, never in flight: bytes
/// that do not match their hash are not kept, and the piece can be claimed again.
pub proof fn lemma_recorded_settles(
    d: OrchestratorView,
    session: usize,
    index: usize,
    length: nat,
    digest: Seq<u8>,
)
    requires
        index < d.pieces.len(),
        d.pieces[index as int] == PieceAssignment::InFlight(session),
    ensures
        d.accepts(index as nat, length, digest) ==> d.recorded(
            session,
            index,
            length,
            digest,
        ).pieces[index as int] is Verified,
        !d.accepts(index as nat, length, digest) ==> d.recorded(
            session,
            index,
            length,
            digest,
        ).pieces[index as int] is Pending && d.outcome(session, index, length, digest)
            == (PieceOutcome::IntegrityFailure { index }),
        forall|k: int|
            0 <= k < d.pieces.len() && k != index ==> #[trigger] d.recorded(
                session,
                index,
                length,
                digest,
            ).pieces[k] == d.pieces[k],
{
}

/// A session that leaves holds nothing afterwards: what it was fetching is pending
/// again, and every other piece is where it was.
pub proof fn lemma_released(pieces: Seq<PieceAssignment>, session: usize)
    ensures
        released(pieces, session).len() == pieces.len(),
        !holds_piece(released(pieces, session), session),
        forall|k: int|
            0 <= k < pieces.len() ==> #[trigger] released(pieces, session)[k] == if pieces[k]
                == PieceAssignment::InFlight(session) {
                PieceAssignment::Pending
            } else {
                pieces[k]
            },
{
}

/// Whether `digest` is the hash that `hashes` holds for piece `index`.
pub fn digest_matches(hashes: &Hashes, index: usize, digest: &[u8; 20]) -> (matches: bool)
    ensures
        matches == (index < hashes@.len() && digest@ == hashes@[index as int]),
{
    if index >= hashes.len() {
        return false;
    }
    assert(hashes@[index as int] == hashes.0@[index as int]@);
    bytes_equal(digest.as_slice(), hashes.0[index].as_slice())
}

/// Whether `bytes` hash to what `hashes` holds for piece `index`.
pub fn piece_matches(hashes: &Hashes, index: usize, bytes: &[u8]) -> (matches: bool)
    ensures
        matches == (index < hashes@.len() && sha1_digest(bytes@) == hashes@[index as int]),
{
    let digest: [u8; 20] = sha1(bytes);
    digest_matches(hashes, index, &digest)
}

} // verus!
