//! One peer connection as a state machine.
//!
//! A session never touches the network. The caller performs the I/O and tells the
//! session what happened: the transport opened, the peer's handshake arrived, a
//! frame arrived, a piece was assigned, time ran out. The session answers each
//! event with its next state and with what the caller is to do: send these bytes,
//! take this finished piece, or give the session up.
//!
//! States: `Connecting`, `HandshakeSent`, `HandshakeVerified`, `AwaitingBitfield`,
//! `Idle`, `Requesting` and `Closed`. `Closed` is final.

use crate::peer::{
    be32, be32_value, bitfield_has, encode_frame, frame_bytes, handshake_bytes, has_piece,
    have_index, pow2_u8, protocol_name, Frame, FrameView, Handshake, HandshakeError, Message,
    MessageTag, Piece, Request,
};
use crate::piece::{
    block_at, chunk_begin, chunk_count, chunk_len, count_chunks, lemma_chunk_count_is_ceiling,
    lemma_chunks_adjacent,
};
use crate::BLOCK_MAX;
use vstd::prelude::*;

verus! {

/// The largest number of block requests that a session keeps unanswered at a time.
pub const WINDOW: usize = 5;

/// Where a session stands.
#[derive(Clone, Copy, Debug, PartialEq, Eq, Structural)]
pub enum SessionState {
    /// The transport is being opened.
    Connecting,
    /// Our handshake went out; the peer's has not come yet.
    HandshakeSent,
    /// The peer's handshake came and is good. Nothing else has come yet.
    HandshakeVerified,
    /// Still waiting for the peer's bitfield, which has to be its first message.
    AwaitingBitfield,
    /// The peer's bitfield is known and no piece is being fetched.
    Idle,
    /// A piece is being fetched.
    Requesting,
    /// The session is over and cannot be used again.
    Closed,
}

/// Why a session was closed.
#[derive(Clone, Copy, Debug, PartialEq, Eq, Structural)]
pub enum SessionError {
    /// The peer does not speak the protocol.
    HandshakeMismatch,
    /// The peer serves another torrent.
    InfoHashMismatch,
    /// The peer sent a message that has no place in the session's state, or one
    /// with a payload that its kind does not allow.
    ProtocolViolation,
    /// The peer sent a block that was not asked for.
    UnexpectedPiece,
    /// The transport failed.
    Disconnected,
    /// The peer took too long.
    Timeout,
}

/// Where a block of the piece that is being fetched stands.
#[derive(Clone, Copy, Debug, PartialEq, Eq, Structural)]
pub enum BlockState {
    /// Not asked for.
    Pending,
    /// Asked for, not yet answered.
    Requested,
    /// Its bytes are here.
    Received,
}

/// What the caller is to do after an event.
#[derive(Debug, Clone, PartialEq, Eq)]
pub enum Action {
    /// Nothing: wait for the next event.
    Nothing,
    /// Write these bytes to the peer.
    Send(Vec<u8>),
    /// The piece is whole: here are its bytes, in offset order. They are not yet
    /// verified against the piece's hash.
    Piece { index: usize, bytes: Vec<u8> },
    /// The session is closed for this reason. A piece that it was fetching has to
    /// be fetched again.
    Failed(SessionError),
    /// The event has no place in the session's state. Nothing changed.
    Refused,
}

/// The mathematical value of an action.
pub enum ActionView {
    Nothing,
    Send(Seq<u8>),
    Piece { index: usize, bytes: Seq<u8> },
    Failed(SessionError),
    Refused,
}

impl View for Action {
    type V = ActionView;

    open spec fn view(&self) -> ActionView {
        match self {
            Action::Nothing => ActionView::Nothing,
            Action::Send(bytes) => ActionView::Send(bytes@),
            Action::Piece { index, bytes } => ActionView::Piece { index: *index, bytes: bytes@ },
            Action::Failed(e) => ActionView::Failed(*e),
            Action::Refused => ActionView::Refused,
        }
    }
}

/// One peer connection.
pub struct PeerSession {
    state: SessionState,
    info_hash: [u8; 20],
    peer_id: [u8; 20],
    remote_id: [u8; 20],
    bitfield: Vec<u8>,
    choked: bool,
    interested: bool,
    piece_index: usize,
    piece_size: usize,
    blocks: Vec<BlockState>,
    data: Vec<u8>,
}

/// The mathematical value of a session.
pub struct SessionView {
    pub state: SessionState,
    /// Info hash of the torrent that is being fetched.
    pub info_hash: Seq<u8>,
    /// Our own identifier.
    pub peer_id: Seq<u8>,
    /// The peer's identifier, once its handshake has come.
    pub remote_id: Seq<u8>,
    /// The pieces that the peer says it has.
    pub bitfield: Seq<u8>,
    /// Whether the peer refuses to serve requests for now.
    pub choked: bool,
    /// Whether the peer has been told that we want its pieces.
    pub interested: bool,
    /// Index of the piece that is being fetched.
    pub piece_index: usize,
    /// Number of bytes in the piece that is being fetched.
    pub piece_size: usize,
    /// The state of each block of the piece that is being fetched.
    pub blocks: Seq<BlockState>,
    /// The bytes of the piece that is being fetched: each block that has come
    /// stands at its offset.
    pub data: Seq<u8>,
}

impl View for PeerSession {
    type V = SessionView;

    closed spec fn view(&self) -> SessionView {
        SessionView {
            state: self.state,
            info_hash: self.info_hash@,
            peer_id: self.peer_id@,
            remote_id: self.remote_id@,
            bitfield: self.bitfield@,
            choked: self.choked,
            interested: self.interested,
            piece_index: self.piece_index,
            piece_size: self.piece_size,
            blocks: self.blocks@,
            data: self.data@,
        }
    }
}

/// Number of blocks from index `from` on that are asked for and not yet answered.
pub open spec fn requested_from(blocks: Seq<BlockState>, from: nat) -> nat
    decreases blocks.len() - from,
{
    if from >= blocks.len() {
        0
    } else if blocks[from as int] is Requested {
        1 + requested_from(blocks, from + 1)
    } else {
        requested_from(blocks, from + 1)
    }
}

/// Every block is here.
pub open spec fn all_received(blocks: Seq<BlockState>) -> bool {
    forall|i: int| 0 <= i < blocks.len() ==> #[trigger] blocks[i] is Received
}

/// The blocks with every unanswered request forgotten: what a peer does to our
/// requests when it chokes us.
pub open spec fn unrequested(blocks: Seq<BlockState>) -> Seq<BlockState> {
    Seq::new(
        blocks.len(),
        |i: int|
            if blocks[i] is Requested {
                BlockState::Pending
            } else {
                blocks[i]
            },
    )
}

/// Number of requests that may still go out before the window is full.
pub open spec fn room(blocks: Seq<BlockState>) -> nat {
    if requested_from(blocks, 0) >= WINDOW {
        0
    } else {
        (WINDOW - requested_from(blocks, 0)) as nat
    }
}

/// The blocks after up to `room` pending blocks from index `from` on, lowest index
/// first, have been asked for.
pub open spec fn filled(blocks: Seq<BlockState>, from: nat, room: nat) -> Seq<BlockState>
    decreases blocks.len() - from,
{
    if from >= blocks.len() || room == 0 {
        blocks
    } else if blocks[from as int] is Pending {
        filled(blocks.update(from as int, BlockState::Requested), from + 1, (room - 1) as nat)
    } else {
        filled(blocks, from + 1, room)
    }
}

/// The frame that asks for `length` bytes from offset `begin` of piece `index`.
pub open spec fn request_frame(index: usize, begin: nat, length: nat) -> Seq<u8> {
    frame_bytes(
        FrameView::Message {
            tag: MessageTag::Request,
            payload: be32(index as u32) + be32(begin as u32) + be32(length as u32),
        },
    )
}

/// The frame that tells the peer that we want its pieces.
pub open spec fn interested_frame() -> Seq<u8> {
    frame_bytes(FrameView::Message { tag: MessageTag::Interested, payload: Seq::empty() })
}

/// The request frames that go out as `filled` marks blocks as asked for, in the
/// order of the blocks.
pub open spec fn fill_requests(
    blocks: Seq<BlockState>,
    from: nat,
    room: nat,
    index: usize,
    size: usize,
) -> Seq<u8>
    decreases blocks.len() - from,
{
    if from >= blocks.len() || room == 0 {
        Seq::<u8>::empty()
    } else if blocks[from as int] is Pending {
        request_frame(
            index,
            chunk_begin(BLOCK_MAX as nat, from),
            chunk_len(size as nat, BLOCK_MAX as nat, from),
        ) + fill_requests(
            blocks.update(from as int, BlockState::Requested),
            from + 1,
            (room - 1) as nat,
            index,
            size,
        )
    } else {
        fill_requests(blocks, from + 1, room, index, size)
    }
}

/// The bits with the bit for piece `index` set, where the bits reach that far.
pub open spec fn bitfield_with(bits: Seq<u8>, index: nat) -> Seq<u8> {
    if index / 8 < bits.len() && !bitfield_has(bits, index) {
        bits.update(
            (index / 8) as int,
            (bits[(index / 8) as int] + pow2_u8((7 - index % 8) as nat)) as u8,
        )
    } else {
        bits
    }
}

/// `data` with `block` in place of the bytes from offset `begin` on.
pub open spec fn with_block(data: Seq<u8>, begin: nat, block: Seq<u8>) -> Seq<u8> {
    data.subrange(0, begin as int) + block + data.subrange(
        begin as int + block.len(),
        data.len() as int,
    )
}

/// What a send of `bytes` comes to: nothing where there are no bytes.
pub open spec fn send(bytes: Seq<u8>) -> ActionView {
    if bytes.len() == 0 {
        ActionView::Nothing
    } else {
        ActionView::Send(bytes)
    }
}

impl SessionView {
    /// While a piece is being fetched, there is a state for each of its blocks and
    /// room for each of its bytes, at least one block is still missing, and index
    /// and size fit the 32 bits that a request has for them. At other times no
    /// blocks and no bytes are held. At no time are more requests unanswered than
    /// the window allows.
    pub open spec fn wf(self) -> bool {
        &&& self.info_hash.len() == 20
        &&& self.peer_id.len() == 20
        &&& self.remote_id.len() == 20
        &&& requested_from(self.blocks, 0) <= WINDOW
        &&& if self.state is Requesting {
            &&& 0 < self.piece_size <= u32::MAX
            &&& self.piece_index <= u32::MAX
            &&& self.blocks.len() == chunk_count(self.piece_size as nat, BLOCK_MAX as nat)
            &&& self.data.len() == self.piece_size
            &&& !all_received(self.blocks)
        } else {
            &&& self.blocks.len() == 0
            &&& self.data.len() == 0
        }
    }

    /// The session closed, with no piece in hand.
    pub open spec fn closed(self) -> SessionView {
        SessionView {
            state: SessionState::Closed,
            blocks: Seq::empty(),
            data: Seq::empty(),
            ..self
        }
    }

    /// State and action after the transport has opened: our handshake goes out.
    pub open spec fn on_connected(self) -> (SessionView, ActionView) {
        if self.state is Connecting {
            (
                SessionView { state: SessionState::HandshakeSent, ..self },
                ActionView::Send(
                    seq![19u8] + protocol_name() + Seq::new(8, |i: int| 0u8)
                        + self.info_hash + self.peer_id,
                ),
            )
        } else {
            (self, ActionView::Refused)
        }
    }

    /// State and action after the peer's handshake has come. Anything but 68 bytes
    /// is no handshake of this protocol.
    pub open spec fn on_handshake(self, bytes: Seq<u8>) -> (SessionView, ActionView) {
        if !(self.state is HandshakeSent) {
            (self, ActionView::Refused)
        } else if bytes.len() != 68 || bytes[0] != 19 || bytes.subrange(1, 20)
            != protocol_name() {
            (self.closed(), ActionView::Failed(SessionError::HandshakeMismatch))
        } else if bytes.subrange(28, 48) != self.info_hash {
            (self.closed(), ActionView::Failed(SessionError::InfoHashMismatch))
        } else {
            (
                SessionView {
                    state: SessionState::HandshakeVerified,
                    remote_id: bytes.subrange(48, 68),
                    ..self
                },
                ActionView::Nothing,
            )
        }
    }

    /// State and action after the session has ended for `reason`, or after a
    /// shutdown where there is none. A closed session stays as it is.
    pub open spec fn on_end(self, reason: Option<SessionError>) -> (SessionView, ActionView) {
        if self.state is Closed {
            (self, ActionView::Refused)
        } else {
            (
                self.closed(),
                match reason {
                    Some(e) => ActionView::Failed(e),
                    None => ActionView::Nothing,
                },
            )
        }
    }

    /// Whether a piece of `size` bytes with index `index` can be fetched from the
    /// peer: the session is idle, the peer has the piece, and index and size fit a
    /// request.
    pub open spec fn can_fetch(self, index: usize, size: usize) -> bool {
        self.state is Idle && 0 < size <= u32::MAX && index <= u32::MAX && bitfield_has(
            self.bitfield,
            index as nat,
        )
    }

    /// State and action after piece `index`, of `size` bytes, has been assigned:
    /// the peer is told of our interest if it has not been yet, and, unless it
    /// chokes us, the first requests go out.
    pub open spec fn on_assign(self, index: usize, size: usize) -> (SessionView, ActionView) {
        if !self.can_fetch(index, size) {
            (self, ActionView::Refused)
        } else {
            let blocks = Seq::new(
                chunk_count(size as nat, BLOCK_MAX as nat),
                |i: int| BlockState::Pending,
            );
            let hello = if self.interested {
                Seq::<u8>::empty()
            } else {
                interested_frame()
            };
            let data = Seq::new(size as nat, |i: int| 0u8);
            let fetching = SessionView {
                state: SessionState::Requesting,
                interested: true,
                piece_index: index,
                piece_size: size,
                data,
                ..self
            };
            if self.choked {
                (SessionView { blocks, ..fetching }, send(hello))
            } else {
                (
                    SessionView { blocks: filled(blocks, 0, WINDOW as nat), ..fetching },
                    send(hello + fill_requests(blocks, 0, WINDOW as nat, index, size)),
                )
            }
        }
    }
}

impl SessionView {
    /// The session closed over a message that has no place.
    pub open spec fn violation(self) -> (SessionView, ActionView) {
        (self.closed(), ActionView::Failed(SessionError::ProtocolViolation))
    }

    /// State and action after a `have` with this payload: the peer has one piece
    /// more. The payload has to be the four bytes of a piece index.
    pub open spec fn on_have(self, payload: Seq<u8>) -> (SessionView, ActionView) {
        if payload.len() == 4 {
            (
                SessionView {
                    bitfield: bitfield_with(self.bitfield, be32_value(payload)),
                    ..self
                },
                ActionView::Nothing,
            )
        } else {
            self.violation()
        }
    }

    /// Index of the block that starts at offset `begin`.
    pub open spec fn block_index(begin: nat) -> nat {
        begin / (BLOCK_MAX as nat)
    }

    /// Whether a block of `length` bytes at offset `begin` of piece `index` answers
    /// a request that is out: it is of the piece that is being fetched, it starts
    /// where a block starts, that block has been asked for and has not come yet,
    /// and it has the length of that block.
    pub open spec fn expects(self, index: nat, begin: nat, length: nat) -> bool {
        let i = Self::block_index(begin);
        &&& index == self.piece_index
        &&& begin % (BLOCK_MAX as nat) == 0
        &&& i < self.blocks.len()
        &&& self.blocks[i as int] is Requested
        &&& length == chunk_len(self.piece_size as nat, BLOCK_MAX as nat, i)
    }

    /// State and action after a `piece` with this payload has come while a piece is
    /// being fetched. A block that answers no request closes the session. A block
    /// that was asked for goes to its place among the bytes of the piece; with the
    /// last block the piece is whole and is handed over, and otherwise the next
    /// requests go out, unless the peer chokes us.
    pub open spec fn on_block(self, payload: Seq<u8>) -> (SessionView, ActionView) {
        if payload.len() < 8 {
            self.violation()
        } else {
            let index = be32_value(payload.subrange(0, 4));
            let begin = be32_value(payload.subrange(4, 8));
            let block = payload.skip(8);
            if !self.expects(index, begin, block.len()) {
                (self.closed(), ActionView::Failed(SessionError::UnexpectedPiece))
            } else {
                let blocks = self.blocks.update(
                    Self::block_index(begin) as int,
                    BlockState::Received,
                );
                let data = with_block(self.data, begin, block);
                if all_received(blocks) {
                    (
                        SessionView {
                            state: SessionState::Idle,
                            blocks: Seq::empty(),
                            data: Seq::empty(),
                            ..self
                        },
                        ActionView::Piece { index: self.piece_index, bytes: data },
                    )
                } else if self.choked {
                    (SessionView { blocks, data, ..self }, ActionView::Nothing)
                } else {
                    (
                        SessionView { blocks: filled(blocks, 0, room(blocks)), data, ..self },
                        send(
                            fill_requests(
                                blocks,
                                0,
                                room(blocks),
                                self.piece_index,
                                self.piece_size,
                            ),
                        ),
                    )
                }
            }
        }
    }

    /// State and action after a message of kind `tag` with this payload has come
    /// once the peer's bitfield is known. Messages about what the peer wants of us
    /// are passed over: this side serves nothing.
    pub open spec fn on_message(self, tag: MessageTag, payload: Seq<u8>) -> (
        SessionView,
        ActionView,
    ) {
        match tag {
            MessageTag::Choke => (
                SessionView { choked: true, blocks: unrequested(self.blocks), ..self },
                ActionView::Nothing,
            ),
            MessageTag::Unchoke => if self.state is Requesting {
                (
                    SessionView {
                        choked: false,
                        blocks: filled(self.blocks, 0, room(self.blocks)),
                        ..self
                    },
                    send(
                        fill_requests(
                            self.blocks,
                            0,
                            room(self.blocks),
                            self.piece_index,
                            self.piece_size,
                        ),
                    ),
                )
            } else {
                (SessionView { choked: false, ..self }, ActionView::Nothing)
            },
            MessageTag::Have => self.on_have(payload),
            MessageTag::Bitfield => self.violation(),
            MessageTag::Piece => if self.state is Requesting {
                self.on_block(payload)
            } else {
                (self.closed(), ActionView::Failed(SessionError::UnexpectedPiece))
            },
            _ => (self, ActionView::Nothing),
        }
    }

    /// State and action after a frame has come. Before the handshake is done and
    /// after the session is closed no frame has a place. The first message after
    /// the handshake has to be the peer's bitfield. After that, keep-alives and
    /// messages of unknown kind are passed over.
    pub open spec fn on_frame(self, frame: FrameView) -> (SessionView, ActionView) {
        match self.state {
            SessionState::Connecting => (self, ActionView::Refused),
            SessionState::HandshakeSent => (self, ActionView::Refused),
            SessionState::Closed => (self, ActionView::Refused),
            SessionState::HandshakeVerified | SessionState::AwaitingBitfield => match frame {
                FrameView::KeepAlive => (
                    SessionView { state: SessionState::AwaitingBitfield, ..self },
                    ActionView::Nothing,
                ),
                FrameView::Message { tag, payload } => if tag is Bitfield {
                    (
                        SessionView { state: SessionState::Idle, bitfield: payload, ..self },
                        ActionView::Nothing,
                    )
                } else {
                    self.violation()
                },
                FrameView::Unknown { .. } => self.violation(),
            },
            SessionState::Idle | SessionState::Requesting => match frame {
                FrameView::KeepAlive => (self, ActionView::Nothing),
                FrameView::Unknown { .. } => (self, ActionView::Nothing),
                FrameView::Message { tag, payload } => self.on_message(tag, payload),
            },
        }
    }
}

/// Number of blocks that are asked for and not yet answered.
fn count_requested(blocks: &Vec<BlockState>) -> (n: usize)
    ensures
        n == requested_from(blocks@, 0),
{
    let mut n: usize = 0;
    let mut i: usize = blocks.len();
    while i > 0
        invariant
            i <= blocks.len(),
            n == requested_from(blocks@, i as nat),
            n <= blocks.len() - i,
        decreases i,
    {
        i = i - 1;
        match blocks[i] {
            BlockState::Requested => {
                n = n + 1;
            },
            _ => {},
        }
    }
    n
}

/// Number of requests that may still go out before the window is full.
fn window_room(blocks: &Vec<BlockState>) -> (n: usize)
    ensures
        n == room(blocks@),
{
    let out: usize = count_requested(blocks);
    if out >= WINDOW {
        0
    } else {
        WINDOW - out
    }
}

/// Appends the frame that asks for a block.
fn push_request(index: usize, begin: usize, length: usize, out: &mut Vec<u8>)
    requires
        index <= u32::MAX,
        begin <= u32::MAX,
        length <= u32::MAX,
    ensures
        final(out)@ == old(out)@ + request_frame(index, begin as nat, length as nat),
{
    let request = Request::new(index as u32, begin as u32, length as u32);
    let frame = Frame::Message(request.to_message());
    match encode_frame(&frame) {
        Some(bytes) => {
            out.extend_from_slice(bytes.as_slice());
        },
        None => {},
    }
}

/// Asks for up to `room` pending blocks, lowest index first: marks them as asked
/// for and appends their request frames.
fn fill_window(
    blocks: &mut Vec<BlockState>,
    room: usize,
    index: usize,
    size: usize,
    out: &mut Vec<u8>,
)
    requires
        old(blocks)@.len() == chunk_count(size as nat, BLOCK_MAX as nat),
        size <= u32::MAX,
        index <= u32::MAX,
    ensures
        final(blocks)@ == filled(old(blocks)@, 0, room as nat),
        final(out)@ == old(out)@ + fill_requests(old(blocks)@, 0, room as nat, index, size),
{
    let mut i: usize = 0;
    let mut left: usize = room;
    assert(out@ + fill_requests(blocks@, 0, room as nat, index, size) =~= old(out)@
        + fill_requests(old(blocks)@, 0, room as nat, index, size));
    while i < blocks.len() && left > 0
        invariant
            i <= blocks.len(),
            blocks@.len() == chunk_count(size as nat, BLOCK_MAX as nat),
            size <= u32::MAX,
            index <= u32::MAX,
            filled(blocks@, i as nat, left as nat) == filled(old(blocks)@, 0, room as nat),
            out@ + fill_requests(blocks@, i as nat, left as nat, index, size) == old(out)@
                + fill_requests(old(blocks)@, 0, room as nat, index, size),
        decreases blocks.len() - i,
    {
        match blocks[i] {
            BlockState::Pending => {
                let block = block_at(index, size, BLOCK_MAX, i);
                let ghost before = out@;
                let ghost states = blocks@;
                push_request(index, block.begin, block.length, out);
                blocks[i] = BlockState::Requested;
                left = left - 1;
                assert(out@ + fill_requests(blocks@, (i + 1) as nat, left as nat, index, size)
                    =~= before + fill_requests(states, i as nat, (left + 1) as nat, index, size));
            },
            _ => {},
        }
        i = i + 1;
    }
    assert(out@ =~= out@ + fill_requests(blocks@, i as nat, left as nat, index, size));
}

/// Whether every block is here.
fn every_block_received(blocks: &Vec<BlockState>) -> (all: bool)
    ensures
        all == all_received(blocks@),
{
    let mut i: usize = 0;
    while i < blocks.len()
        invariant
            i <= blocks.len(),
            forall|k: int| 0 <= k < i ==> #[trigger] blocks@[k] is Received,
        decreases blocks.len() - i,
    {
        match blocks[i] {
            BlockState::Received => {},
            _ => {
                return false;
            },
        }
        i = i + 1;
    }
    true
}

/// Forgets every unanswered request.
fn forget_requests(blocks: &mut Vec<BlockState>)
    ensures
        final(blocks)@ == unrequested(old(blocks)@),
{
    let mut i: usize = 0;
    while i < blocks.len()
        invariant
            i <= blocks.len(),
            blocks@.len() == old(blocks)@.len(),
            forall|k: int| 0 <= k < i ==> blocks@[k] == unrequested(old(blocks)@)[k],
            forall|k: int| i <= k < blocks.len() ==> blocks@[k] == old(blocks)@[k],
        decreases blocks.len() - i,
    {
        match blocks[i] {
            BlockState::Requested => {
                blocks[i] = BlockState::Pending;
            },
            _ => {},
        }
        i = i + 1;
    }
    assert(blocks@ =~= unrequested(old(blocks)@));
}

/// Puts `block` in place of the bytes of `data` from offset `begin` on.
fn put_block(data: &mut Vec<u8>, begin: usize, block: &Vec<u8>)
    requires
        begin + block@.len() <= old(data)@.len(),
    ensures
        final(data)@ == with_block(old(data)@, begin as nat, block@),
        final(data)@.len() == old(data)@.len(),
{
    let mut k: usize = 0;
    assert(begin + block.len() <= data.len());
    while k < block.len()
        invariant
            k <= block.len(),
            begin + block.len() <= usize::MAX,
            data@.len() == old(data)@.len(),
            begin + block@.len() <= data@.len(),
            forall|j: int| 0 <= j < begin ==> data@[j] == old(data)@[j],
            forall|j: int| begin <= j < begin + k ==> data@[j] == block@[j - begin],
            forall|j: int| begin + k <= j < data@.len() ==> data@[j] == old(data)@[j],
        decreases block.len() - k,
    {
        data[begin + k] = block[k];
        k = k + 1;
    }
    assert(data@ =~= with_block(old(data)@, begin as nat, block@));
}

/// A byte with one of its bits clear stays a byte when that bit's value is added.
proof fn lemma_clear_bit(byte: u8, k: nat)
    requires
        k < 8,
        (byte as int / pow2_u8(k) as int) % 2 != 1,
    ensures
        byte + pow2_u8(k) <= 255,
{
    if k == 0 {
        assert(byte as int / 1 == byte);
    } else if k == 1 {
        assert((byte as int / 2) % 2 == 0);
    } else if k == 2 {
        assert((byte as int / 4) % 2 == 0);
    } else if k == 3 {
        assert((byte as int / 8) % 2 == 0);
    } else if k == 4 {
        assert((byte as int / 16) % 2 == 0);
    } else if k == 5 {
        assert((byte as int / 32) % 2 == 0);
    } else if k == 6 {
        assert((byte as int / 64) % 2 == 0);
    } else {
        assert((byte as int / 128) % 2 == 0);
    }
}

/// Sets the bit for piece `index`, where the bits reach that far.
fn set_bit(bits: &mut Vec<u8>, index: usize)
    ensures
        final(bits)@ == bitfield_with(old(bits)@, index as nat),
{
    if index / 8 < bits.len() && !has_piece(bits.as_slice(), index) {
        let byte: u8 = bits[index / 8];
        let k: usize = 7 - index % 8;
        let bit: u8 = if k == 0 {
            1
        } else if k == 1 {
            2
        } else if k == 2 {
            4
        } else if k == 3 {
            8
        } else if k == 4 {
            16
        } else if k == 5 {
            32
        } else if k == 6 {
            64
        } else {
            128
        };
        proof {
            lemma_clear_bit(byte, k as nat);
        }
        bits[index / 8] = byte + bit;
        assert(bits@ =~= bitfield_with(old(bits)@, index as nat));
    }
}

/// What a send of `bytes` comes to.
fn send_action(bytes: Vec<u8>) -> (action: Action)
    ensures
        action@ == send(bytes@),
{
    if bytes.len() == 0 {
        Action::Nothing
    } else {
        Action::Send(bytes)
    }
}

/// Closing is final: a closed session refuses every event and stays as it is.
pub proof fn lemma_closed_is_final(
    s: SessionView,
    bytes: Seq<u8>,
    frame: FrameView,
    index: usize,
    size: usize,
    reason: Option<SessionError>,
)
    requires
        s.state is Closed,
    ensures
        s.on_connected() == (s, ActionView::Refused),
        s.on_handshake(bytes) == (s, ActionView::Refused),
        s.on_frame(frame) == (s, ActionView::Refused),
        s.on_assign(index, size) == (s, ActionView::Refused),
        s.on_end(reason) == (s, ActionView::Refused),
{
}

/// Whether the bytes that are held for the blocks that have come are those of
/// `piece`: each such block stands at its offset.
pub open spec fn holds_blocks_of(blocks: Seq<BlockState>, data: Seq<u8>, piece: Seq<u8>) -> bool {
    &&& data.len() == piece.len()
    &&& forall|i: int, k: int|
        #![trigger blocks[i], data[k]]
        0 <= i < blocks.len() && blocks[i] is Received && i * BLOCK_MAX <= k < i * BLOCK_MAX
            + chunk_len(piece.len(), BLOCK_MAX as nat, i as nat) ==> 0 <= k < data.len() && data[k]
            == piece[k]
}

/// Reassembly: while a piece is being fetched and every block that has come so far
/// stands at its offset, a block that was asked for and carries the bytes of the
/// piece goes to its offset too, in whatever order the blocks come; and with the
/// last block, what the session hands over is the piece, byte for byte.
pub proof fn lemma_blocks_reassemble(s: SessionView, payload: Seq<u8>, piece: Seq<u8>)
    requires
        s.wf(),
        s.state is Requesting,
        piece.len() == s.piece_size,
        holds_blocks_of(s.blocks, s.data, piece),
        payload.len() >= 8,
        s.expects(
            be32_value(payload.subrange(0, 4)),
            be32_value(payload.subrange(4, 8)),
            payload.skip(8).len(),
        ),
        payload.skip(8) == piece.subrange(
            be32_value(payload.subrange(4, 8)) as int,
            be32_value(payload.subrange(4, 8)) as int + payload.skip(8).len() as int,
        ),
    ensures
        match s.on_block(payload).1 {
            ActionView::Piece { index, bytes } => index == s.piece_index && bytes == piece,
            ActionView::Failed(_) => false,
            ActionView::Refused => false,
            _ => s.on_block(payload).0.state is Requesting && holds_blocks_of(
                s.on_block(payload).0.blocks,
                s.on_block(payload).0.data,
                piece,
            ),
        },
{
    let begin = be32_value(payload.subrange(4, 8));
    let block = payload.skip(8);
    let i = SessionView::block_index(begin) as int;
    let size = s.piece_size as nat;
    let blocks = s.blocks.update(i, BlockState::Received);
    let data = with_block(s.data, begin, block);
    lemma_chunks_adjacent(size, BLOCK_MAX as nat, i as nat);
    assert(begin == i * BLOCK_MAX) by (nonlinear_arith)
        requires
            i == begin as int / 16384,
            begin as int % 16384 == 0,
            BLOCK_MAX == 16384,
    ;
    assert(chunk_begin(BLOCK_MAX as nat, i as nat) == i * BLOCK_MAX);
    assert(data.len() == piece.len());
    assert forall|j: int, k: int|
        0 <= j < blocks.len() && blocks[j] is Received && j * BLOCK_MAX <= k < j * BLOCK_MAX
            + chunk_len(piece.len(), BLOCK_MAX as nat, j as nat) implies 0 <= k < data.len()
        && data[k] == piece[k] by {
        lemma_chunks_adjacent(size, BLOCK_MAX as nat, j as nat);
        assert(chunk_begin(BLOCK_MAX as nat, j as nat) == j * BLOCK_MAX);
        if j == i {
            assert(data[k] == block[k - begin]);
        } else {
            assert(s.blocks[j] is Received);
            assert(s.data[k] == piece[k]);
            // the blocks do not overlap
            if j < i {
                assert((j + 1) * BLOCK_MAX <= i * BLOCK_MAX) by (nonlinear_arith)
                    requires
                        j + 1 <= i,
                ;
                assert(k < begin);
            } else {
                assert((i + 1) * BLOCK_MAX <= j * BLOCK_MAX) by (nonlinear_arith)
                    requires
                        i + 1 <= j,
                ;
                assert(k >= begin + block.len());
            }
            assert(data[k] == s.data[k]);
        }
    }
    assert(holds_blocks_of(blocks, data, piece));
    if all_received(blocks) {
        assert forall|k: int| 0 <= k < data.len() implies data[k] == piece[k] by {
            let j = k / 16384;
            lemma_chunk_count_is_ceiling(size, BLOCK_MAX as nat);
            assert(0 <= j && j * 16384 <= k < j * 16384 + 16384);
            assert(j < blocks.len()) by {
                if j >= blocks.len() {
                    assert(blocks.len() * 16384 <= j * 16384) by (nonlinear_arith)
                        requires
                            blocks.len() <= j,
                    ;
                }
            }
            lemma_chunks_adjacent(size, BLOCK_MAX as nat, j as nat);
            assert(chunk_begin(BLOCK_MAX as nat, j as nat) == j * BLOCK_MAX);
            assert(blocks[j] is Received);
            if j + 1 < blocks.len() {
            } else {
                assert(j * BLOCK_MAX + chunk_len(size, BLOCK_MAX as nat, j as nat) == size);
            }
        }
        assert(data =~= piece);
    } else if !s.choked {
        let after = filled(blocks, 0, room(blocks));
        lemma_filled_keeps_received(blocks, 0, room(blocks));
        assert forall|j: int, k: int|
            0 <= j < after.len() && after[j] is Received && j * BLOCK_MAX <= k < j * BLOCK_MAX
                + chunk_len(piece.len(), BLOCK_MAX as nat, j as nat) implies 0 <= k < data.len()
            && data[k] == piece[k] by {
            assert(blocks[j] is Received);
        }
    }
}

/// What a change to one block does to the number of unanswered requests.
pub proof fn lemma_requested_update(blocks: Seq<BlockState>, i: int, state: BlockState, from: nat)
    requires
        0 <= i < blocks.len(),
    ensures
        requested_from(blocks.update(i, state), from) == requested_from(blocks, from) + (if from
            <= i {
            (if state is Requested {
                1int
            } else {
                0int
            }) - (if blocks[i] is Requested {
                1int
            } else {
                0int
            })
        } else {
            0int
        }),
    decreases blocks.len() - from,
{
    if from < blocks.len() {
        lemma_requested_update(blocks, i, state, from + 1);
    }
}

/// The window: asking for up to `room` blocks adds at most `room` to the number
/// of unanswered requests.
pub proof fn lemma_filled_window(blocks: Seq<BlockState>, from: nat, room: nat)
    ensures
        requested_from(filled(blocks, from, room), 0) <= requested_from(blocks, 0) + room,
    decreases blocks.len() - from,
{
    if from < blocks.len() && room > 0 {
        if blocks[from as int] is Pending {
            let next = blocks.update(from as int, BlockState::Requested);
            lemma_requested_update(blocks, from as int, BlockState::Requested, 0);
            lemma_filled_window(next, from + 1, (room - 1) as nat);
        } else {
            lemma_filled_window(blocks, from + 1, room);
        }
    }
}

/// Once every unanswered request is forgotten, none is out.
pub proof fn lemma_unrequested_none(blocks: Seq<BlockState>, from: nat)
    ensures
        requested_from(unrequested(blocks), from) == 0,
    decreases blocks.len() - from,
{
    if from < blocks.len() {
        lemma_unrequested_none(blocks, from + 1);
    }
}

/// Asking for blocks changes neither their number nor which of them are here.
pub proof fn lemma_filled_keeps_received(blocks: Seq<BlockState>, from: nat, room: nat)
    ensures
        filled(blocks, from, room).len() == blocks.len(),
        forall|k: int|
            0 <= k < blocks.len() ==> (#[trigger] filled(blocks, from, room)[k] is Received)
                == (blocks[k] is Received),
        all_received(filled(blocks, from, room)) == all_received(blocks),
    decreases blocks.len() - from,
{
    if from < blocks.len() && room > 0 {
        if blocks[from as int] is Pending {
            let next = blocks.update(from as int, BlockState::Requested);
            lemma_filled_keeps_received(next, from + 1, (room - 1) as nat);
            assert forall|k: int| 0 <= k < blocks.len() implies (#[trigger] filled(
                blocks,
                from,
                room,
            )[k] is Received) == (blocks[k] is Received) by {
                assert((filled(next, from + 1, (room - 1) as nat)[k] is Received) == (
                next[k] is Received));
            }
        } else {
            lemma_filled_keeps_received(blocks, from + 1, room);
        }
    }
    let after = filled(blocks, from, room);
    if all_received(blocks) {
        assert forall|k: int| 0 <= k < after.len() implies #[trigger] after[k] is Received by {
            assert(blocks[k] is Received);
        }
    }
    if all_received(after) {
        assert forall|k: int| 0 <= k < blocks.len() implies #[trigger] blocks[k] is Received by {
            assert(after[k] is Received);
        }
    }
}

impl PeerSession {
    /// A session for a download of `info_hash`, with `peer_id` as our identifier.
    /// Its transport is still to be opened, and the peer counts as choking us until
    /// it says otherwise.
    pub fn new(info_hash: [u8; 20], peer_id: [u8; 20]) -> (session: PeerSession)
        ensures
            session@.wf(),
            session@ == (SessionView {
                state: SessionState::Connecting,
                info_hash: info_hash@,
                peer_id: peer_id@,
                remote_id: Seq::new(20, |i: int| 0u8),
                bitfield: Seq::empty(),
                choked: true,
                interested: false,
                piece_index: 0,
                piece_size: 0,
                blocks: Seq::empty(),
                data: Seq::empty(),
            }),
    {
        let remote_id: [u8; 20] = [0u8; 20];
        assert(remote_id@ =~= Seq::new(20, |i: int| 0u8));
        PeerSession {
            state: SessionState::Connecting,
            info_hash,
            peer_id,
            remote_id,
            bitfield: Vec::new(),
            choked: true,
            interested: false,
            piece_index: 0,
            piece_size: 0,
            blocks: Vec::new(),
            data: Vec::new(),
        }
    }

    /// Where the session stands.
    pub fn state(&self) -> (state: SessionState)
        ensures
            state == self@.state,
    {
        self.state
    }

    /// The peer's identifier; all zero until its handshake has come.
    pub fn remote_id(&self) -> (id: [u8; 20])
        ensures
            id@ == self@.remote_id,
    {
        self.remote_id
    }

    /// Whether the peer refuses to serve requests for now.
    pub fn is_choked(&self) -> (choked: bool)
        ensures
            choked == self@.choked,
    {
        self.choked
    }

    /// Whether the peer has said that it has piece `index`.
    pub fn peer_has(&self, index: usize) -> (has: bool)
        ensures
            has == bitfield_has(self@.bitfield, index as nat),
    {
        has_piece(self.bitfield.as_slice(), index)
    }

    /// Whether piece `index`, of `size` bytes, can be assigned to the session.
    pub fn can_fetch(&self, index: usize, size: usize) -> (can: bool)
        ensures
            can == self@.can_fetch(index, size),
    {
        match self.state {
            SessionState::Idle => size > 0 && size as u64 <= 4294967295 && index as u64
                <= 4294967295 && has_piece(self.bitfield.as_slice(), index),
            _ => false,
        }
    }

    /// Closes the session.
    fn close(&mut self)
        ensures
            final(self)@ == old(self)@.closed(),
            old(self)@.wf() ==> final(self)@.wf(),
    {
        self.state = SessionState::Closed;
        self.blocks = Vec::new();
        self.data = Vec::new();
    }

    /// The transport has opened: our handshake is to go out.
    pub fn on_connected(&mut self) -> (action: Action)
        requires
            old(self)@.wf(),
        ensures
            final(self)@.wf(),
            (final(self)@, action@) == old(self)@.on_connected(),
    {
        match self.state {
            SessionState::Connecting => {
                let handshake = Handshake::new(self.info_hash, self.peer_id);
                let bytes: Vec<u8> = handshake.to_bytes();
                self.state = SessionState::HandshakeSent;
                assert(bytes@ =~= seq![19u8] + protocol_name() + Seq::new(8, |i: int| 0u8)
                    + old(self)@.info_hash + old(self)@.peer_id);
                Action::Send(bytes)
            },
            _ => Action::Refused,
        }
    }

    /// The peer's handshake has come: it is judged, and the session goes on or is
    /// closed. The peer's identifier plays no part in the verdict.
    pub fn on_handshake(&mut self, bytes: &[u8]) -> (action: Action)
        requires
            old(self)@.wf(),
        ensures
            final(self)@.wf(),
            (final(self)@, action@) == old(self)@.on_handshake(bytes@),
    {
        match self.state {
            SessionState::HandshakeSent => {},
            _ => {
                return Action::Refused;
            },
        }
        match Handshake::from_bytes(bytes) {
            None => {
                self.close();
                Action::Failed(SessionError::HandshakeMismatch)
            },
            Some(h) => {
                proof {
                    assert(handshake_bytes(h) == bytes@);
                    assert(bytes@[0] == h.length);
                    assert(bytes@.subrange(1, 20) =~= h.bittorrent@);
                    assert(bytes@.subrange(28, 48) =~= h.info_hash@);
                    assert(bytes@.subrange(48, 68) =~= h.peer_id@);
                }
                match h.validate(&self.info_hash) {
                    Err(HandshakeError::HandshakeMismatch) => {
                        self.close();
                        Action::Failed(SessionError::HandshakeMismatch)
                    },
                    Err(HandshakeError::InfoHashMismatch) => {
                        self.close();
                        Action::Failed(SessionError::InfoHashMismatch)
                    },
                    Ok(_) => {
                        self.state = SessionState::HandshakeVerified;
                        self.remote_id = h.peer_id;
                        Action::Nothing
                    },
                }
            },
        }
    }

    /// The session has ended for `reason`, or is shut down where there is none.
    fn end(&mut self, reason: Option<SessionError>) -> (action: Action)
        requires
            old(self)@.wf(),
        ensures
            final(self)@.wf(),
            (final(self)@, action@) == old(self)@.on_end(reason),
    {
        match self.state {
            SessionState::Closed => Action::Refused,
            _ => {
                self.close();
                match reason {
                    Some(e) => Action::Failed(e),
                    None => Action::Nothing,
                }
            },
        }
    }

    /// The peer took too long: the session is closed, and a piece that it was
    /// fetching has to be fetched again.
    pub fn on_timeout(&mut self) -> (action: Action)
        requires
            old(self)@.wf(),
        ensures
            final(self)@.wf(),
            (final(self)@, action@) == old(self)@.on_end(Some(SessionError::Timeout)),
    {
        self.end(Some(SessionError::Timeout))
    }

    /// The transport failed: the session is closed, and a piece that it was
    /// fetching has to be fetched again.
    pub fn on_disconnect(&mut self) -> (action: Action)
        requires
            old(self)@.wf(),
        ensures
            final(self)@.wf(),
            (final(self)@, action@) == old(self)@.on_end(Some(SessionError::Disconnected)),
    {
        self.end(Some(SessionError::Disconnected))
    }

    /// Closes the session on our own account.
    pub fn shutdown(&mut self) -> (action: Action)
        requires
            old(self)@.wf(),
        ensures
            final(self)@.wf(),
            (final(self)@, action@) == old(self)@.on_end(None),
    {
        self.end(None)
    }

    /// Piece `index`, of `size` bytes, is assigned to the session. It is refused,
    /// and nothing changes, unless the session is idle, the peer has the piece, and
    /// index and size fit a request.
    pub fn assign(&mut self, index: usize, size: usize) -> (action: Action)
        requires
            old(self)@.wf(),
        ensures
            final(self)@.wf(),
            (final(self)@, action@) == old(self)@.on_assign(index, size),
    {
        if !self.can_fetch(index, size) {
            return Action::Refused;
        }
        let count: usize = count_chunks(size, BLOCK_MAX);
        proof {
            lemma_chunk_count_is_ceiling(size as nat, BLOCK_MAX as nat);
        }
        let mut blocks: Vec<BlockState> = Vec::new();
        let mut i: usize = 0;
        while i < count
            invariant
                i <= count,
                blocks@.len() == i,
                forall|k: int| 0 <= k < i ==> blocks@[k] == BlockState::Pending,
            decreases count - i,
        {
            blocks.push(BlockState::Pending);
            i = i + 1;
        }
        let mut data: Vec<u8> = Vec::new();
        let mut j: usize = 0;
        while j < size
            invariant
                j <= size,
                data@.len() == j,
                forall|k: int| 0 <= k < j ==> data@[k] == 0u8,
            decreases size - j,
        {
            data.push(0);
            j = j + 1;
        }
        let ghost pending = Seq::new(count as nat, |i: int| BlockState::Pending);
        assert(blocks@ =~= pending);
        assert(data@ =~= Seq::new(size as nat, |i: int| 0u8));
        assert(!all_received(pending)) by {
            assert(!(pending[0] is Received));
        }
        let mut out: Vec<u8> = Vec::new();
        if !self.interested {
            let hello = Frame::Message(Message { tag: MessageTag::Interested, payload: Vec::new() });
            match encode_frame(&hello) {
                Some(bytes) => {
                    out = bytes;
                },
                None => {},
            }
        }
        assert(out@ =~= if old(self)@.interested {
            Seq::<u8>::empty()
        } else {
            interested_frame()
        });
        proof {
            lemma_unrequested_none(pending, 0);
            assert(unrequested(pending) =~= pending);
        }
        if !self.choked {
            proof {
                lemma_filled_keeps_received(pending, 0, WINDOW as nat);
                lemma_filled_window(pending, 0, WINDOW as nat);
            }
            fill_window(&mut blocks, WINDOW, index, size, &mut out);
        }
        self.state = SessionState::Requesting;
        self.interested = true;
        self.piece_index = index;
        self.piece_size = size;
        self.blocks = blocks;
        self.data = data;
        send_action(out)
    }

    /// A `have` has come.
    fn have(&mut self, payload: &Vec<u8>) -> (action: Action)
        requires
            old(self)@.wf(),
        ensures
            final(self)@.wf(),
            (final(self)@, action@) == old(self)@.on_have(payload@),
    {
        match have_index(payload.as_slice()) {
            Some(index) => {
                set_bit(&mut self.bitfield, index as usize);
                Action::Nothing
            },
            None => {
                self.close();
                Action::Failed(SessionError::ProtocolViolation)
            },
        }
    }

    /// A `piece` has come while a piece is being fetched.
    fn block(&mut self, payload: &Vec<u8>) -> (action: Action)
        requires
            old(self)@.wf(),
            old(self)@.state is Requesting,
        ensures
            final(self)@.wf(),
            (final(self)@, action@) == old(self)@.on_block(payload@),
    {
        let piece = match Piece::from_payload(payload.as_slice()) {
            Some(piece) => piece,
            None => {
                self.close();
                return Action::Failed(SessionError::ProtocolViolation);
            },
        };
        let begin: usize = piece.begin as usize;
        let i: usize = begin / BLOCK_MAX;
        let mut expected: bool = piece.index as usize == self.piece_index && begin % BLOCK_MAX == 0
            && i < self.blocks.len();
        if expected {
            expected = match self.blocks[i] {
                BlockState::Requested => true,
                _ => false,
            };
        }
        if expected {
            let block = block_at(self.piece_index, self.piece_size, BLOCK_MAX, i);
            expected = piece.block.len() == block.length;
        }
        if !expected {
            self.close();
            return Action::Failed(SessionError::UnexpectedPiece);
        }
        proof {
            lemma_chunks_adjacent(self.piece_size as nat, BLOCK_MAX as nat, i as nat);
            assert(chunk_begin(BLOCK_MAX as nat, i as nat) == begin) by (nonlinear_arith)
                requires
                    i == begin as int / 16384,
                    begin as int % 16384 == 0,
                    chunk_begin(16384, i as nat) == i * 16384,
            ;
        }
        proof {
            lemma_requested_update(self.blocks@, i as int, BlockState::Received, 0);
        }
        self.blocks[i] = BlockState::Received;
        put_block(&mut self.data, begin, &piece.block);
        if every_block_received(&self.blocks) {
            let mut bytes: Vec<u8> = Vec::new();
            core::mem::swap(&mut bytes, &mut self.data);
            self.state = SessionState::Idle;
            self.blocks = Vec::new();
            return Action::Piece { index: self.piece_index, bytes };
        }
        if self.choked {
            return Action::Nothing;
        }
        let room: usize = window_room(&self.blocks);
        let mut out: Vec<u8> = Vec::new();
        proof {
            lemma_filled_keeps_received(self.blocks@, 0, room as nat);
            lemma_filled_window(self.blocks@, 0, room as nat);
        }
        fill_window(&mut self.blocks, room, self.piece_index, self.piece_size, &mut out);
        assert(out@ =~= fill_requests(
            old(self)@.blocks.update(i as int, BlockState::Received),
            0,
            room as nat,
            self.piece_index,
            self.piece_size,
        ));
        send_action(out)
    }

    /// A frame has come.
    pub fn on_frame(&mut self, frame: &Frame) -> (action: Action)
        requires
            old(self)@.wf(),
        ensures
            final(self)@.wf(),
            (final(self)@, action@) == old(self)@.on_frame(frame@),
    {
        match self.state {
            SessionState::Connecting => Action::Refused,
            SessionState::HandshakeSent => Action::Refused,
            SessionState::Closed => Action::Refused,
            SessionState::HandshakeVerified | SessionState::AwaitingBitfield => match frame {
                Frame::KeepAlive => {
                    self.state = SessionState::AwaitingBitfield;
                    Action::Nothing
                },
                Frame::Message(m) => match m.tag {
                    MessageTag::Bitfield => {
                        self.state = SessionState::Idle;
                        self.bitfield = m.payload.clone();
                        Action::Nothing
                    },
                    _ => {
                        self.close();
                        Action::Failed(SessionError::ProtocolViolation)
                    },
                },
                Frame::Unknown(_) => {
                    self.close();
                    Action::Failed(SessionError::ProtocolViolation)
                },
            },
            SessionState::Idle | SessionState::Requesting => match frame {
                Frame::KeepAlive => Action::Nothing,
                Frame::Unknown(_) => Action::Nothing,
                Frame::Message(m) => self.message(m),
            },
        }
    }

    /// A message has come once the peer's bitfield is known.
    fn message(&mut self, m: &Message) -> (action: Action)
        requires
            old(self)@.wf(),
            old(self)@.state is Idle || old(self)@.state is Requesting,
        ensures
            final(self)@.wf(),
            (final(self)@, action@) == old(self)@.on_message(m.tag, m.payload@),
    {
        match m.tag {
            MessageTag::Choke => {
                self.choked = true;
                forget_requests(&mut self.blocks);
                proof {
                    let before = old(self)@.blocks;
                    lemma_unrequested_none(before, 0);
                    if all_received(unrequested(before)) {
                        assert forall|k: int| 0 <= k < before.len() implies #[trigger] before[k] is Received by {
                            assert(unrequested(before)[k] is Received);
                        }
                    }
                }
                Action::Nothing
            },
            MessageTag::Unchoke => {
                self.choked = false;
                match self.state {
                    SessionState::Requesting => {
                        let room: usize = window_room(&self.blocks);
                        let mut out: Vec<u8> = Vec::new();
                        proof {
                            lemma_filled_keeps_received(self.blocks@, 0, room as nat);
                            lemma_filled_window(self.blocks@, 0, room as nat);
                        }
                        fill_window(
                            &mut self.blocks,
                            room,
                            self.piece_index,
                            self.piece_size,
                            &mut out,
                        );
                        assert(out@ =~= fill_requests(
                            old(self)@.blocks,
                            0,
                            room as nat,
                            self.piece_index,
                            self.piece_size,
                        ));
                        send_action(out)
                    },
                    _ => Action::Nothing,
                }
            },
            MessageTag::Have => self.have(&m.payload),
            MessageTag::Bitfield => {
                self.close();
                Action::Failed(SessionError::ProtocolViolation)
            },
            MessageTag::Piece => match self.state {
                SessionState::Requesting => self.block(&m.payload),
                _ => {
                    self.close();
                    Action::Failed(SessionError::UnexpectedPiece)
                },
            },
            _ => Action::Nothing,
        }
    }
}

} // verus!
