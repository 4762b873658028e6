//! The peer wire protocol: the 68-byte handshake that opens a connection, and the
//! length-prefixed messages that follow it.

use vstd::prelude::*;
use vstd::slice::{slice_subrange, slice_to_vec};

verus! {

/// Number of bytes in a handshake.
pub const HANDSHAKE_LEN: usize = 68;

/// Why a peer's handshake was refused.
#[derive(Clone, Copy, Debug, PartialEq, Eq, Structural)]
pub enum HandshakeError {
    /// The length byte is not 19, or the protocol name is not the expected one: the
    /// peer does not speak this protocol.
    HandshakeMismatch,
    /// The peer names another info hash: it serves a different torrent.
    InfoHashMismatch,
}

/// The first message on a connection, sent by both sides.
#[derive(Clone, Copy, Debug, PartialEq, Eq)]
pub struct Handshake {
    /// Length of the protocol name, always 19.
    pub length: u8,
    /// The protocol name, `BitTorrent protocol`.
    pub bittorrent: [u8; 19],
    /// Eight reserved bytes, zero when sent from here.
    pub reserved: [u8; 8],
    /// Info hash of the torrent that the connection is about.
    pub info_hash: [u8; 20],
    /// Identifier of the peer that sent the handshake.
    pub peer_id: [u8; 20],
}

/// The name of the protocol, `BitTorrent protocol`, in ASCII.
pub open spec fn protocol_name() -> Seq<u8> {
    seq![
        66u8, 105u8, 116u8, 84u8, 111u8, 114u8, 114u8, 101u8, 110u8, 116u8, 32u8, 112u8, 114u8,
        111u8, 116u8, 111u8, 99u8, 111u8, 108u8,
    ]
}

/// The bytes of a handshake in the order they go over the wire.
pub open spec fn handshake_bytes(h: Handshake) -> Seq<u8> {
    seq![h.length] + h.bittorrent@ + h.reserved@ + h.info_hash@ + h.peer_id@
}

/// The verdict on a peer's handshake for a download of `info_hash`: the protocol is
/// looked at first, then the info hash. Neither the reserved bytes nor the peer's
/// identifier can make a handshake fail.
pub open spec fn handshake_verdict(h: Handshake, info_hash: Seq<u8>) -> Result<
    (),
    HandshakeError,
> {
    if h.length != 19 || h.bittorrent@ != protocol_name() {
        Err(HandshakeError::HandshakeMismatch)
    } else if h.info_hash@ != info_hash {
        Err(HandshakeError::InfoHashMismatch)
    } else {
        Ok(())
    }
}

/// Whether two byte strings are the same.
pub fn bytes_equal(a: &[u8], b: &[u8]) -> (same: bool)
    ensures
        same == (a@ == b@),
{
    if a.len() != b.len() {
        return false;
    }
    let mut i: usize = 0;
    while i < a.len()
        invariant
            i <= a.len(),
            a.len() == b.len(),
            forall|k: int| 0 <= k < i ==> a@[k] == b@[k],
        decreases a.len() - i,
    {
        if a[i] != b[i] {
            return false;
        }
        i = i + 1;
    }
    assert(a@ =~= b@);
    true
}

/// The `N` bytes of `src` from `offset` on.
fn array_at<const N: usize>(src: &[u8], offset: usize) -> (out: [u8; N])
    requires
        offset + N <= src.len(),
    ensures
        out@ == src@.subrange(offset as int, offset + N),
{
    let mut out: [u8; N] = [0u8; N];
    let mut i: usize = 0;
    while i < N
        invariant
            i <= N,
            offset + N <= src.len(),
            forall|k: int| 0 <= k < i ==> out@[k] == src@[offset + k],
        decreases N - i,
    {
        out[i] = src[offset + i];
        i = i + 1;
    }
    assert(out@ =~= src@.subrange(offset as int, offset + N));
    out
}

/// The name of the protocol.
fn protocol_name_bytes() -> (name: [u8; 19])
    ensures
        name@ == protocol_name(),
{
    let name: [u8; 19] = [
        66, 105, 116, 84, 111, 114, 114, 101, 110, 116, 32, 112, 114, 111, 116, 111, 99, 111, 108,
    ];
    assert(name@ =~= protocol_name());
    name
}

impl Handshake {
    /// The handshake to send for a download of `info_hash` as peer `peer_id`.
    pub fn new(info_hash: [u8; 20], peer_id: [u8; 20]) -> (h: Handshake)
        ensures
            h.length == 19,
            h.bittorrent@ == protocol_name(),
            h.reserved@ == Seq::new(8, |i: int| 0u8),
            h.info_hash == info_hash,
            h.peer_id == peer_id,
            handshake_verdict(h, info_hash@) is Ok,
    {
        let reserved: [u8; 8] = [0u8; 8];
        assert(reserved@ =~= Seq::new(8, |i: int| 0u8));
        Handshake {
            length: 19,
            bittorrent: protocol_name_bytes(),
            reserved,
            info_hash,
            peer_id,
        }
    }

    /// The 68 bytes of the handshake as they go over the wire.
    pub fn to_bytes(&self) -> (bytes: Vec<u8>)
        ensures
            bytes@ == handshake_bytes(*self),
            bytes@.len() == 68,
    {
        let mut bytes: Vec<u8> = Vec::new();
        bytes.push(self.length);
        bytes.extend_from_slice(self.bittorrent.as_slice());
        bytes.extend_from_slice(self.reserved.as_slice());
        bytes.extend_from_slice(self.info_hash.as_slice());
        bytes.extend_from_slice(self.peer_id.as_slice());
        assert(bytes@ =~= handshake_bytes(*self));
        bytes
    }

    /// Reads a handshake out of the 68 bytes that a peer sent. There is a handshake
    /// exactly where there are 68 bytes; whether it is acceptable is another matter.
    pub fn from_bytes(bytes: &[u8]) -> (r: Option<Handshake>)
        ensures
            (r is Some) == (bytes.len() == 68),
            r matches Some(h) ==> handshake_bytes(h) == bytes@,
    {
        if bytes.len() != HANDSHAKE_LEN {
            return None;
        }
        let h = Handshake {
            length: bytes[0],
            bittorrent: array_at::<19>(bytes, 1),
            reserved: array_at::<8>(bytes, 20),
            info_hash: array_at::<20>(bytes, 28),
            peer_id: array_at::<20>(bytes, 48),
        };
        assert(handshake_bytes(h) =~= bytes@);
        Some(h)
    }

    /// Judges a peer's handshake for a download of `info_hash`.
    pub fn validate(&self, info_hash: &[u8; 20]) -> (r: Result<(), HandshakeError>)
        ensures
            r == handshake_verdict(*self, info_hash@),
    {
        let name: [u8; 19] = protocol_name_bytes();
        if self.length != 19 || !bytes_equal(self.bittorrent.as_slice(), name.as_slice()) {
            Err(HandshakeError::HandshakeMismatch)
        } else if !bytes_equal(self.info_hash.as_slice(), info_hash.as_slice()) {
            Err(HandshakeError::InfoHashMismatch)
        } else {
            Ok(())
        }
    }
}

/// Handshake validation: an echo of our handshake under any peer identifier and any
/// reserved bytes is accepted; a handshake with another length byte or another
/// protocol name is refused as a mismatch of protocol, and one that passes there
/// but names another info hash as a mismatch of info hash.
pub proof fn lemma_handshake_verdict(h: Handshake, info_hash: Seq<u8>)
    ensures
        h.length == 19 && h.bittorrent@ == protocol_name() && h.info_hash@ == info_hash
            ==> handshake_verdict(h, info_hash) is Ok,
        h.length != 19 ==> handshake_verdict(h, info_hash) == Err::<(), HandshakeError>(
            HandshakeError::HandshakeMismatch,
        ),
        h.bittorrent@ != protocol_name() ==> handshake_verdict(h, info_hash) == Err::<
            (),
            HandshakeError,
        >(HandshakeError::HandshakeMismatch),
        h.info_hash@ != info_hash ==> handshake_verdict(h, info_hash) is Err,
        handshake_verdict(h, info_hash) is Ok ==> forall|other: Handshake|
            other.length == h.length && other.bittorrent == h.bittorrent && other.info_hash
                == h.info_hash ==> #[trigger] handshake_verdict(other, info_hash) is Ok,
{
}

/// The kind of a message, which its tag byte tells.
#[derive(Clone, Copy, Debug, PartialEq, Eq, Structural)]
pub enum MessageTag {
    Choke,
    Unchoke,
    Interested,
    NotInterested,
    Have,
    Bitfield,
    Request,
    Piece,
    Cancel,
}

impl MessageTag {
    /// The tag byte of the kind.
    pub open spec fn byte(self) -> u8 {
        match self {
            MessageTag::Choke => 0,
            MessageTag::Unchoke => 1,
            MessageTag::Interested => 2,
            MessageTag::NotInterested => 3,
            MessageTag::Have => 4,
            MessageTag::Bitfield => 5,
            MessageTag::Request => 6,
            MessageTag::Piece => 7,
            MessageTag::Cancel => 8,
        }
    }

    /// The kind that a tag byte tells, if it is one of the nine.
    pub open spec fn of_byte(b: u8) -> Option<MessageTag> {
        if b == 0 {
            Some(MessageTag::Choke)
        } else if b == 1 {
            Some(MessageTag::Unchoke)
        } else if b == 2 {
            Some(MessageTag::Interested)
        } else if b == 3 {
            Some(MessageTag::NotInterested)
        } else if b == 4 {
            Some(MessageTag::Have)
        } else if b == 5 {
            Some(MessageTag::Bitfield)
        } else if b == 6 {
            Some(MessageTag::Request)
        } else if b == 7 {
            Some(MessageTag::Piece)
        } else if b == 8 {
            Some(MessageTag::Cancel)
        } else {
            None
        }
    }

    /// The tag byte of the kind.
    pub fn to_byte(self) -> (b: u8)
        ensures
            b == self.byte(),
            MessageTag::of_byte(b) == Some(self),
    {
        match self {
            MessageTag::Choke => 0,
            MessageTag::Unchoke => 1,
            MessageTag::Interested => 2,
            MessageTag::NotInterested => 3,
            MessageTag::Have => 4,
            MessageTag::Bitfield => 5,
            MessageTag::Request => 6,
            MessageTag::Piece => 7,
            MessageTag::Cancel => 8,
        }
    }

    /// The kind that a tag byte tells, if it is one of the nine.
    pub fn from_byte(b: u8) -> (tag: Option<MessageTag>)
        ensures
            tag == MessageTag::of_byte(b),
    {
        match b {
            0 => Some(MessageTag::Choke),
            1 => Some(MessageTag::Unchoke),
            2 => Some(MessageTag::Interested),
            3 => Some(MessageTag::NotInterested),
            4 => Some(MessageTag::Have),
            5 => Some(MessageTag::Bitfield),
            6 => Some(MessageTag::Request),
            7 => Some(MessageTag::Piece),
            8 => Some(MessageTag::Cancel),
            _ => None,
        }
    }
}

/// A message of one of the nine known kinds.
#[derive(Debug, Clone, PartialEq, Eq)]
pub struct Message {
    pub tag: MessageTag,
    pub payload: Vec<u8>,
}

/// A message whose tag is none of the known ones. It is kept as it came, so that
/// the caller can choose to pass over it.
#[derive(Debug, Clone, PartialEq, Eq)]
pub struct UnknownMessage {
    pub tag: u8,
    pub payload: Vec<u8>,
}

/// One frame of the stream that follows the handshake.
#[derive(Debug, Clone, PartialEq, Eq)]
pub enum Frame {
    /// A frame of length zero: it has no tag and says only that the peer is there.
    KeepAlive,
    Message(Message),
    Unknown(UnknownMessage),
}

/// The mathematical value of a frame.
pub enum FrameView {
    KeepAlive,
    Message { tag: MessageTag, payload: Seq<u8> },
    Unknown { tag: u8, payload: Seq<u8> },
}

impl View for Frame {
    type V = FrameView;

    open spec fn view(&self) -> FrameView {
        match self {
            Frame::KeepAlive => FrameView::KeepAlive,
            Frame::Message(m) => FrameView::Message { tag: m.tag, payload: m.payload@ },
            Frame::Unknown(m) => FrameView::Unknown { tag: m.tag, payload: m.payload@ },
        }
    }
}

impl FrameView {
    /// The tag byte and the payload together fit the length prefix, and a frame
    /// that counts as unknown has a tag that is none of the known ones.
    pub open spec fn wf(self) -> bool {
        match self {
            FrameView::KeepAlive => true,
            FrameView::Message { tag, payload } => payload.len() < u32::MAX,
            FrameView::Unknown { tag, payload } => payload.len() < u32::MAX && MessageTag::of_byte(
                tag,
            ) is None,
        }
    }
}

/// The four bytes of `n`, most significant first.
pub open spec fn be32(n: u32) -> Seq<u8> {
    seq![
        (n / 16777216) as u8,
        (n / 65536 % 256) as u8,
        (n / 256 % 256) as u8,
        (n % 256) as u8,
    ]
}

/// The number that four bytes stand for, most significant first.
pub open spec fn be32_value(b: Seq<u8>) -> nat
    recommends
        b.len() == 4,
{
    (b[0] * 16777216 + b[1] * 65536 + b[2] * 256 + b[3]) as nat
}

/// The bytes of a frame as they go over the wire: the length of what follows in
/// four bytes, then the tag byte, then the payload. A keep-alive is the length zero
/// and nothing more.
pub open spec fn frame_bytes(f: FrameView) -> Seq<u8>
    recommends
        f.wf(),
{
    match f {
        FrameView::KeepAlive => be32(0),
        FrameView::Message { tag, payload } => be32((payload.len() + 1) as u32) + seq![tag.byte()]
            + payload,
        FrameView::Unknown { tag, payload } => be32((payload.len() + 1) as u32) + seq![tag]
            + payload,
    }
}

/// The frame at the front of `s` and the number of bytes it takes up, or nothing
/// where the bytes of a whole frame are not there yet.
pub open spec fn parse_frame(s: Seq<u8>) -> Option<(FrameView, nat)> {
    if s.len() < 4 {
        None
    } else {
        let len = be32_value(s.subrange(0, 4));
        if len == 0 {
            Some((FrameView::KeepAlive, 4))
        } else if s.len() < 4 + len {
            None
        } else {
            let payload = s.subrange(5, 4 + len as int);
            Some(
                (
                    match MessageTag::of_byte(s[4]) {
                        Some(tag) => FrameView::Message { tag, payload },
                        None => FrameView::Unknown { tag: s[4], payload },
                    },
                    4 + len,
                ),
            )
        }
    }
}

/// Four bytes stand for the number that they were made from.
pub proof fn lemma_be32_value(n: u32)
    ensures
        be32(n).len() == 4,
        be32_value(be32(n)) == n,
{
}

/// Framing round trip: reading the bytes of a frame gives the frame back, whatever
/// follows it on the stream.
pub proof fn lemma_parse_frame_bytes(f: FrameView, rest: Seq<u8>)
    requires
        f.wf(),
    ensures
        parse_frame(frame_bytes(f) + rest) == Some((f, frame_bytes(f).len())),
{
    let s = frame_bytes(f) + rest;
    match f {
        FrameView::KeepAlive => {
            lemma_be32_value(0);
            assert(s.subrange(0, 4) =~= be32(0));
        },
        FrameView::Message { tag, payload } => {
            let n = (payload.len() + 1) as u32;
            lemma_be32_value(n);
            assert(s.subrange(0, 4) =~= be32(n));
            assert(s[4] == tag.byte());
            assert(s.subrange(5, 4 + n as int) =~= payload);
        },
        FrameView::Unknown { tag, payload } => {
            let n = (payload.len() + 1) as u32;
            lemma_be32_value(n);
            assert(s.subrange(0, 4) =~= be32(n));
            assert(s[4] == tag);
            assert(s.subrange(5, 4 + n as int) =~= payload);
        },
    }
}

/// Appends the four bytes of `n`, most significant first.
fn push_be32(n: u32, out: &mut Vec<u8>)
    ensures
        final(out)@ == old(out)@ + be32(n),
{
    out.push((n / 16777216) as u8);
    out.push((n / 65536 % 256) as u8);
    out.push((n / 256 % 256) as u8);
    out.push((n % 256) as u8);
    assert(out@ =~= old(out)@ + be32(n));
}

/// The number that the four bytes of `s` from `offset` on stand for.
fn read_be32(s: &[u8], offset: usize) -> (n: u32)
    requires
        offset + 4 <= s.len(),
    ensures
        n == be32_value(s@.subrange(offset as int, offset + 4)),
{
    s[offset] as u32 * 16777216 + s[offset + 1] as u32 * 65536 + s[offset + 2] as u32 * 256
        + s[offset + 3] as u32
}

/// The bytes of `frame` as they go over the wire, where its tag byte and payload
/// together fit the length prefix, which has 32 bits.
pub fn encode_frame(frame: &Frame) -> (r: Option<Vec<u8>>)
    ensures
        match r {
            Some(bytes) => bytes@ == frame_bytes(frame@) && match frame@ {
                FrameView::KeepAlive => true,
                FrameView::Message { tag, payload } => payload.len() < u32::MAX,
                FrameView::Unknown { tag, payload } => payload.len() < u32::MAX,
            },
            None => match frame@ {
                FrameView::KeepAlive => false,
                FrameView::Message { tag, payload } => payload.len() >= u32::MAX,
                FrameView::Unknown { tag, payload } => payload.len() >= u32::MAX,
            },
        },
{
    let mut out: Vec<u8> = Vec::new();
    match frame {
        Frame::KeepAlive => {
            push_be32(0, &mut out);
        },
        Frame::Message(m) => {
            if m.payload.len() as u64 >= 4294967295 {
                return None;
            }
            push_be32((m.payload.len() + 1) as u32, &mut out);
            out.push(m.tag.to_byte());
            out.extend_from_slice(m.payload.as_slice());
        },
        Frame::Unknown(m) => {
            if m.payload.len() as u64 >= 4294967295 {
                return None;
            }
            push_be32((m.payload.len() + 1) as u32, &mut out);
            out.push(m.tag);
            out.extend_from_slice(m.payload.as_slice());
        },
    }
    assert(out@ =~= frame_bytes(frame@));
    Some(out)
}

/// Reads the frame at the front of `buf`, and says how many bytes it took up. Gives
/// nothing while the bytes of a whole frame are not there: the caller waits for
/// more. A frame with a tag that is none of the known ones comes back as unknown,
/// with its tag and payload.
pub fn decode_frame(buf: &[u8]) -> (r: Option<(Frame, usize)>)
    ensures
        match parse_frame(buf@) {
            Some((f, n)) => r matches Some((frame, used)) && frame@ == f && used == n && used
                <= buf.len(),
            None => r is None,
        },
{
    if buf.len() < 4 {
        return None;
    }
    let len: u32 = read_be32(buf, 0);
    if len == 0 {
        return Some((Frame::KeepAlive, 4));
    }
    if (buf.len() as u64) < 4 + len as u64 {
        return None;
    }
    let end: usize = 4 + len as usize;
    let tag: u8 = buf[4];
    let payload: Vec<u8> = slice_to_vec(slice_subrange(buf, 5, end));
    let frame = match MessageTag::from_byte(tag) {
        Some(tag) => Frame::Message(Message { tag, payload }),
        None => Frame::Unknown(UnknownMessage { tag, payload }),
    };
    Some((frame, end))
}

/// A request for a block: the payload of a `request` and of a `cancel`.
#[derive(Clone, Copy, Debug, PartialEq, Eq, Structural)]
pub struct Request {
    /// Index of the piece.
    pub index: u32,
    /// Offset of the block within the piece.
    pub begin: u32,
    /// Number of bytes asked for.
    pub length: u32,
}

impl Request {
    /// The twelve bytes of the payload.
    pub open spec fn payload(self) -> Seq<u8> {
        be32(self.index) + be32(self.begin) + be32(self.length)
    }

    /// The request for `length` bytes from offset `begin` of piece `index`.
    pub fn new(index: u32, begin: u32, length: u32) -> (request: Request)
        ensures
            request == (Request { index, begin, length }),
    {
        Request { index, begin, length }
    }

    /// The twelve bytes of the payload.
    pub fn to_payload(&self) -> (bytes: Vec<u8>)
        ensures
            bytes@ == self.payload(),
            bytes@.len() == 12,
    {
        let mut bytes: Vec<u8> = Vec::new();
        push_be32(self.index, &mut bytes);
        push_be32(self.begin, &mut bytes);
        push_be32(self.length, &mut bytes);
        bytes
    }

    /// Reads a request out of a payload, which holds one exactly where it has
    /// twelve bytes.
    pub fn from_payload(payload: &[u8]) -> (r: Option<Request>)
        ensures
            (r is Some) == (payload.len() == 12),
            r matches Some(request) ==> request.index == be32_value(payload@.subrange(0, 4))
                && request.begin == be32_value(payload@.subrange(4, 8)) && request.length
                == be32_value(payload@.subrange(8, 12)),
    {
        if payload.len() != 12 {
            return None;
        }
        Some(
            Request {
                index: read_be32(payload, 0),
                begin: read_be32(payload, 4),
                length: read_be32(payload, 8),
            },
        )
    }

    /// The `request` message that asks for the block.
    pub fn to_message(&self) -> (message: Message)
        ensures
            message.tag == MessageTag::Request,
            message.payload@ == self.payload(),
    {
        Message { tag: MessageTag::Request, payload: self.to_payload() }
    }
}

/// A block of a piece: the payload of a `piece` message.
#[derive(Debug, Clone, PartialEq, Eq)]
pub struct Piece {
    /// Index of the piece.
    pub index: u32,
    /// Offset of the block within the piece.
    pub begin: u32,
    /// The bytes of the block.
    pub block: Vec<u8>,
}

impl Piece {
    /// Reads a block out of a payload, which holds one exactly where it has the
    /// eight bytes of index and offset; what follows them is the block.
    pub fn from_payload(payload: &[u8]) -> (r: Option<Piece>)
        ensures
            (r is Some) == (payload.len() >= 8),
            r matches Some(piece) ==> piece.index == be32_value(payload@.subrange(0, 4))
                && piece.begin == be32_value(payload@.subrange(4, 8)) && piece.block@
                == payload@.skip(8),
    {
        if payload.len() < 8 {
            return None;
        }
        let block: Vec<u8> = slice_to_vec(slice_subrange(payload, 8, payload.len()));
        assert(block@ =~= payload@.skip(8));
        Some(Piece { index: read_be32(payload, 0), begin: read_be32(payload, 4), block })
    }

    /// The payload of the `piece` message that carries the block.
    pub fn to_payload(&self) -> (bytes: Vec<u8>)
        ensures
            bytes@ == be32(self.index) + be32(self.begin) + self.block@,
    {
        let mut bytes: Vec<u8> = Vec::new();
        push_be32(self.index, &mut bytes);
        push_be32(self.begin, &mut bytes);
        bytes.extend_from_slice(self.block.as_slice());
        bytes
    }
}

/// The piece index that the payload of a `have` names: it holds one exactly where
/// it has four bytes.
pub fn have_index(payload: &[u8]) -> (r: Option<u32>)
    ensures
        (r is Some) == (payload.len() == 4),
        r matches Some(index) ==> index == be32_value(payload@),
{
    if payload.len() != 4 {
        return None;
    }
    assert(payload@.subrange(0, 4) =~= payload@);
    Some(read_be32(payload, 0))
}

/// Whether the bit for piece `index` is set in a bitfield. Bits are counted from
/// the most significant bit of the first byte; pieces beyond the bitfield's end are
/// not there.
pub open spec fn bitfield_has(bits: Seq<u8>, index: nat) -> bool {
    index / 8 < bits.len() && (bits[(index / 8) as int] as int / pow2_u8(
        (7 - index % 8) as nat,
    ) as int) % 2 == 1
}

/// Two to the power `k`, for the bits of a byte.
pub open spec fn pow2_u8(k: nat) -> nat {
    if k == 0 {
        1
    } else if k == 1 {
        2
    } else if k == 2 {
        4
    } else if k == 3 {
        8
    } else if k == 4 {
        16
    } else if k == 5 {
        32
    } else if k == 6 {
        64
    } else {
        128
    }
}

/// Whether a peer with the bitfield `bits` has piece `index`.
pub fn has_piece(bits: &[u8], index: usize) -> (has: bool)
    ensures
        has == bitfield_has(bits@, index as nat),
{
    if index / 8 >= bits.len() {
        return false;
    }
    let byte: u8 = bits[index / 8];
    let k: usize = 7 - index % 8;
    let divisor: u8 = if k == 0 {
        1
    } else if k == 1 {
        2
    } else if k == 2 {
        4
    } else if k == 3 {
        8
    } else if k == 4 {
        16
    } else if k == 5 {
        32
    } else if k == 6 {
        64
    } else {
        128
    };
    (byte / divisor) % 2 == 1
}

} // verus!
