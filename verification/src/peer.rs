//! The peer wire protocol: the handshake, the framing of messages, and what
//! a connection knows of its peer.

use vstd::prelude::*;
use vstd::slice::{slice_subrange, slice_to_vec};
use vstd::string::{StringSliceAdditionalSpecFns, is_ascii, is_ascii_spec_bytes};

use crate::error::DecodeError;
use crate::torrent_ast::same_bytes;
use crate::wrappers::{PieceSet, claims, max_claims};

verus! {

/// Set in a peer's status while we are choked by it.
pub const SELF_CHOKED: u8 = 1;

/// Set in a peer's status while we are interested in it.
pub const SELF_INTERESTED: u8 = 2;

/// Set in a peer's status while it is choked by us.
pub const PEER_CHOKED: u8 = 4;

/// Set in a peer's status while it is interested in us.
pub const PEER_INTERESTED: u8 = 8;

/// One byte more than the longest block that a `Piece` message may carry:
/// 16 KiB.
pub const MAX_BLOCK: u32 = 16384;

/// The length of a handshake: the protocol's name, eight reserved bytes, an
/// info-hash and a peer id.
pub const HANDSHAKE_LEN: usize = 68;

/// A message of the peer wire protocol.
#[derive(Debug, PartialEq, Eq, Clone)]
pub enum Message {
    KeepAlive,
    Choke,
    Unchoke,
    Interested,
    NotInterested,
    /// The index of a piece that the peer has.
    Have(u32),
    /// The pieces that the peer has, one bit for each, the first piece in the
    /// highest bit of the first byte.
    Bitfield(Vec<u8>),
    Request { index: u32, begin: u32, length: u32 },
    Piece { index: u32, begin: u32, block: Vec<u8> },
    Cancel { index: u32, begin: u32, length: u32 },
    /// The port that the peer listens on.
    Port(u16),
}

/// What a message says.
pub enum MessageView {
    KeepAlive,
    Choke,
    Unchoke,
    Interested,
    NotInterested,
    Have(u32),
    Bitfield(Seq<u8>),
    Request { index: u32, begin: u32, length: u32 },
    Piece { index: u32, begin: u32, block: Seq<u8> },
    Cancel { index: u32, begin: u32, length: u32 },
    Port(u16),
}

impl View for Message {
    type V = MessageView;

    open spec fn view(&self) -> MessageView {
        match self {
            Message::KeepAlive => MessageView::KeepAlive,
            Message::Choke => MessageView::Choke,
            Message::Unchoke => MessageView::Unchoke,
            Message::Interested => MessageView::Interested,
            Message::NotInterested => MessageView::NotInterested,
            Message::Have(index) => MessageView::Have(*index),
            Message::Bitfield(bits) => MessageView::Bitfield(bits@),
            Message::Request { index, begin, length } => MessageView::Request {
                index: *index,
                begin: *begin,
                length: *length,
            },
            Message::Piece { index, begin, block } => MessageView::Piece {
                index: *index,
                begin: *begin,
                block: block@,
            },
            Message::Cancel { index, begin, length } => MessageView::Cancel {
                index: *index,
                begin: *begin,
                length: *length,
            },
            Message::Port(port) => MessageView::Port(*port),
        }
    }
}

/// What a look at the bytes received so far gives.
#[derive(Debug, PartialEq, Eq, Clone)]
pub enum Frame {
    /// No message is whole yet: come back with this many bytes in all.
    Partial(usize),
    /// A message, and the number of bytes that it took up.
    Whole(Message, usize),
}

/// What a frame says.
pub enum FrameView {
    Partial(int),
    Whole(MessageView, int),
}

impl View for Frame {
    type V = FrameView;

    open spec fn view(&self) -> FrameView {
        match self {
            Frame::Partial(n) => FrameView::Partial(*n as int),
            Frame::Whole(m, n) => FrameView::Whole(m@, *n as int),
        }
    }
}

/// The four bytes at `at`, read as a number with the highest byte first.
pub open spec fn be32(s: Seq<u8>, at: int) -> u32 {
    (s[at] * 16777216 + s[at + 1] * 65536 + s[at + 2] * 256 + s[at + 3]) as u32
}

/// The two bytes at `at`, read as a number with the higher byte first.
pub open spec fn be16(s: Seq<u8>, at: int) -> u16 {
    (s[at] * 256 + s[at + 1]) as u16
}

/// The length of a `Bitfield` message for a torrent of `pieces` pieces: the
/// id and one bit for each piece, in whole bytes.
pub open spec fn bitfield_len(pieces: nat) -> nat {
    1 + (pieces + 7) / 8
}

/// Whether a frame of the declared length `len` can hold a message with the
/// id `id`, for a torrent of `pieces` pieces.
pub open spec fn valid_len(id: u8, len: u32, pieces: nat) -> bool {
    if id <= 3 {
        len == 1
    } else if id == 4 {
        len == 5
    } else if id == 5 {
        len == bitfield_len(pieces)
    } else if id == 6 || id == 8 {
        len == 13
    } else if id == 7 {
        9 <= len < MAX_BLOCK + 9
    } else if id == 9 {
        len == 3
    } else {
        false
    }
}

/// The message with the id `id` and the body `body`, where the two go
/// together.
pub open spec fn message_of(id: u8, body: Seq<u8>) -> MessageView {
    if id == 0 {
        MessageView::Choke
    } else if id == 1 {
        MessageView::Unchoke
    } else if id == 2 {
        MessageView::Interested
    } else if id == 3 {
        MessageView::NotInterested
    } else if id == 4 {
        MessageView::Have(be32(body, 0))
    } else if id == 5 {
        MessageView::Bitfield(body)
    } else if id == 6 {
        MessageView::Request { index: be32(body, 0), begin: be32(body, 4), length: be32(body, 8) }
    } else if id == 7 {
        MessageView::Piece {
            index: be32(body, 0),
            begin: be32(body, 4),
            block: body.subrange(8, body.len() as int),
        }
    } else if id == 8 {
        MessageView::Cancel { index: be32(body, 0), begin: be32(body, 4), length: be32(body, 8) }
    } else {
        MessageView::Port(be16(body, 0))
    }
}

/// What the bytes received so far hold at their front, for a torrent of
/// `pieces` pieces: a whole message; or not yet one, with the number of
/// bytes to come back with; or, as an error, an id and a declared length that
/// do not go together.
pub open spec fn frame_of(buf: Seq<u8>, pieces: nat) -> Result<FrameView, DecodeError> {
    if buf.len() < 4 {
        Ok(FrameView::Partial(4))
    } else if be32(buf, 0) == 0 {
        Ok(FrameView::Whole(MessageView::KeepAlive, 4))
    } else if buf.len() < 5 {
        Ok(FrameView::Partial(5))
    } else if !valid_len(buf[4], be32(buf, 0), pieces) {
        Err(DecodeError::MessageId(buf[4], be32(buf, 0)))
    } else if buf.len() < 4 + be32(buf, 0) {
        Ok(FrameView::Partial(4 + be32(buf, 0)))
    } else {
        Ok(
            FrameView::Whole(
                message_of(buf[4], buf.subrange(5, 4 + be32(buf, 0))),
                4 + be32(buf, 0),
            ),
        )
    }
}

/// What a connection knows of its peer.
pub struct PeerState {
    /// The peer's id, as its handshake gave it.
    pub peer_id: Seq<u8>,
    /// For each piece, whether the peer claims to have it.
    pub claims: Seq<bool>,
    pub self_choked: bool,
    pub self_interested: bool,
    pub peer_choked: bool,
    pub peer_interested: bool,
}

/// Whether the flag `mask` is set in `status`.
pub open spec fn flag(status: u8, mask: u8) -> bool {
    status & mask == mask
}

/// The weight of bit `k` of a byte, counted from the highest.
pub open spec fn bit_weight(k: int) -> int {
    if k == 0 {
        128
    } else if k == 1 {
        64
    } else if k == 2 {
        32
    } else if k == 3 {
        16
    } else if k == 4 {
        8
    } else if k == 5 {
        4
    } else if k == 6 {
        2
    } else {
        1
    }
}

/// Bit `i` of `bits`, the first bit the highest of the first byte.
pub open spec fn bit_at(bits: Seq<u8>, i: int) -> bool {
    (bits[i / 8] as int / bit_weight(i % 8)) % 2 == 1
}

/// The state after a message has come in. `Choke` and `Unchoke` set and
/// clear `peer_choked`, `Interested` and `NotInterested` set and clear
/// `peer_interested`; `Have` sets the claim for its piece, where there is
/// such a piece; `Bitfield` replaces the claims by its bits. No other
/// message changes anything.
pub open spec fn received(state: PeerState, msg: MessageView) -> PeerState {
    match msg {
        MessageView::Choke => PeerState { peer_choked: true, ..state },
        MessageView::Unchoke => PeerState { peer_choked: false, ..state },
        MessageView::Interested => PeerState { peer_interested: true, ..state },
        MessageView::NotInterested => PeerState { peer_interested: false, ..state },
        MessageView::Have(index) => if index < state.claims.len() {
            PeerState { claims: state.claims.update(index as int, true), ..state }
        } else {
            state
        },
        MessageView::Bitfield(bits) => if bits.len() == (state.claims.len() + 7) / 8 {
            PeerState { claims: Seq::new(state.claims.len(), |i: int| bit_at(bits, i)), ..state }
        } else {
            state
        },
        _ => state,
    }
}

/// The name of the protocol, behind its length.
pub open spec fn protocol() -> Seq<u8> {
    "\x13Bittorrent Protocol".spec_bytes()
}

/// The handshake that we send: the protocol's name, eight reserved bytes,
/// all zero, the info-hash and our peer id.
pub open spec fn handshake_bytes(info_hash: Seq<u8>, peer_id: Seq<u8>) -> Seq<u8> {
    protocol() + Seq::new(8, |i: int| 0u8) + info_hash + peer_id
}

/// How far the handshake of a peer has come.
#[derive(Debug, PartialEq, Eq, Clone, Copy)]
pub enum Greeting {
    /// Nothing is wrong so far: come back with this many bytes in all.
    More(usize),
    /// The peer speaks another protocol, asks for an extension, or serves
    /// another torrent.
    Rejected,
    /// The handshake is whole and in order; it took up `HANDSHAKE_LEN` bytes.
    Accepted,
}

/// What the bytes received so far say of a peer's handshake, for the
/// torrent with the info-hash `info_hash`. Each part is judged as soon as it
/// is whole: the protocol's name, the reserved bytes, the info-hash.
pub open spec fn greeting_of(received: Seq<u8>, info_hash: Seq<u8>) -> Greeting {
    if received.len() < 20 {
        Greeting::More(20)
    } else if received.subrange(0, 20) != protocol() {
        Greeting::Rejected
    } else if received.len() < 28 {
        Greeting::More(28)
    } else if received.subrange(20, 28) != Seq::new(8, |i: int| 0u8) {
        Greeting::Rejected
    } else if received.len() < 48 {
        Greeting::More(48)
    } else if received.subrange(28, 48) != info_hash {
        Greeting::Rejected
    } else if received.len() < 68 {
        Greeting::More(68)
    } else {
        Greeting::Accepted
    }
}

/// A connection's peer: who it is, what it claims to have, and who chokes
/// whom.
#[derive(Debug)]
pub struct Peer {
    pub peer_id: Vec<u8>,
    pub bitfield: PieceSet,
    pub status: u8,
}

impl View for Peer {
    type V = PeerState;

    open spec fn view(&self) -> PeerState {
        PeerState {
            peer_id: self.peer_id@,
            claims: claims(self.bitfield),
            self_choked: flag(self.status, SELF_CHOKED),
            self_interested: flag(self.status, SELF_INTERESTED),
            peer_choked: flag(self.status, PEER_CHOKED),
            peer_interested: flag(self.status, PEER_INTERESTED),
        }
    }
}

/// Setting one flag sets it and leaves every other flag as it was.
pub proof fn lemma_flag_set(status: u8, mask: u8, other: u8)
    requires
        mask & other == 0,
        other != 0,
    ensures
        flag(status | mask, mask),
        flag(status | mask, other) == flag(status, other),
{
    assert((status | mask) & mask == mask) by (bit_vector);
    assert(((status | mask) & other == other) == (status & other == other)) by (bit_vector)
        requires
            mask & other == 0,
    ;
}

/// Clearing one flag clears it and leaves every other flag as it was.
pub proof fn lemma_flag_clear(status: u8, mask: u8, other: u8)
    requires
        mask & other == 0,
        mask != 0,
        other != 0,
    ensures
        !flag(status & !mask, mask),
        flag(status & !mask, other) == flag(status, other),
{
    assert((status & !mask) & mask != mask) by (bit_vector)
        requires
            mask != 0,
    ;
    assert(((status & !mask) & other == other) == (status & other == other)) by (bit_vector)
        requires
            mask & other == 0,
    ;
}

/// No two of the four flags share a bit.
pub proof fn lemma_flags_apart()
    ensures
        PEER_CHOKED & SELF_CHOKED == 0,
        PEER_CHOKED & SELF_INTERESTED == 0,
        PEER_CHOKED & PEER_INTERESTED == 0,
        PEER_INTERESTED & SELF_CHOKED == 0,
        PEER_INTERESTED & SELF_INTERESTED == 0,
        PEER_INTERESTED & PEER_CHOKED == 0,
{
    assert(4u8 & 1u8 == 0) by (bit_vector);
    assert(4u8 & 2u8 == 0) by (bit_vector);
    assert(4u8 & 8u8 == 0) by (bit_vector);
    assert(8u8 & 1u8 == 0) by (bit_vector);
    assert(8u8 & 2u8 == 0) by (bit_vector);
    assert(8u8 & 4u8 == 0) by (bit_vector);
}

/// Reads four bytes as a number, the highest byte first.
fn read_be32(s: &[u8], at: usize) -> (r: u32)
    requires
        at + 4 <= s@.len(),
    ensures
        r == be32(s@, at as int),
{
    let b0 = s[at] as u32;
    let b1 = s[at + 1] as u32;
    let b2 = s[at + 2] as u32;
    let b3 = s[at + 3] as u32;
    b0 * 16777216 + b1 * 65536 + b2 * 256 + b3
}

/// Reads two bytes as a number, the higher byte first.
fn read_be16(s: &[u8], at: usize) -> (r: u16)
    requires
        at + 2 <= s@.len(),
    ensures
        r == be16(s@, at as int),
{
    let b0 = s[at] as u16;
    let b1 = s[at + 1] as u16;
    b0 * 256 + b1
}

/// Whether every byte is zero.
pub fn all_zero(s: &[u8]) -> (r: bool)
    ensures
        r == (s@ == Seq::new(s@.len(), |i: int| 0u8)),
{
    let mut i: usize = 0;
    while i < s.len()
        invariant
            i <= s@.len(),
            forall|j: int| 0 <= j < i ==> s@[j] == 0,
        decreases s@.len() - i,
    {
        if s[i] != 0 {
            assert(Seq::new(s@.len(), |i: int| 0u8)[i as int] == 0);
            return false;
        }
        i += 1;
    }
    assert(s@ =~= Seq::new(s@.len(), |i: int| 0u8));
    true
}

/// The weight of bit `k` of a byte, counted from the highest.
fn weight(k: usize) -> (r: u8)
    requires
        k < 8,
    ensures
        r == bit_weight(k as int),
        r > 0,
{
    if k == 0 {
        128
    } else if k == 1 {
        64
    } else if k == 2 {
        32
    } else if k == 3 {
        16
    } else if k == 4 {
        8
    } else if k == 5 {
        4
    } else if k == 6 {
        2
    } else {
        1
    }
}

impl Message {
    /// The message with the id `id` and the body `body`, of a frame whose
    /// length goes with the id.
    fn decode(id: u8, body: &[u8]) -> (r: Message)
        requires
            id <= 9,
            id == 4 ==> body@.len() == 4,
            id == 6 || id == 8 ==> body@.len() == 12,
            id == 7 ==> body@.len() >= 8,
            id == 9 ==> body@.len() == 2,
        ensures
            r@ == message_of(id, body@),
    {
        if id == 0 {
            Message::Choke
        } else if id == 1 {
            Message::Unchoke
        } else if id == 2 {
            Message::Interested
        } else if id == 3 {
            Message::NotInterested
        } else if id == 4 {
            Message::Have(read_be32(body, 0))
        } else if id == 5 {
            Message::Bitfield(slice_to_vec(body))
        } else if id == 6 {
            Message::Request {
                index: read_be32(body, 0),
                begin: read_be32(body, 4),
                length: read_be32(body, 8),
            }
        } else if id == 7 {
            Message::Piece {
                index: read_be32(body, 0),
                begin: read_be32(body, 4),
                block: slice_to_vec(slice_subrange(body, 8, body.len())),
            }
        } else if id == 8 {
            Message::Cancel {
                index: read_be32(body, 0),
                begin: read_be32(body, 4),
                length: read_be32(body, 8),
            }
        } else {
            Message::Port(read_be16(body, 0))
        }
    }
}

impl Peer {
    /// The handshake to send to a peer.
    pub fn handshake(info_hash: &[u8], peer_id: &[u8]) -> (r: Vec<u8>)
        ensures
            r@ == handshake_bytes(info_hash@, peer_id@),
    {
        let mut out: Vec<u8> = Vec::new();
        out.extend_from_slice("\x13Bittorrent Protocol".as_bytes());
        let mut i: usize = 0;
        while i < 8
            invariant
                i <= 8,
                out@ == protocol() + Seq::new(i as nat, |j: int| 0u8),
            decreases 8 - i,
        {
            out.push(0);
            i += 1;
            assert(out@ =~= protocol() + Seq::new(i as nat, |j: int| 0u8));
        }
        out.extend_from_slice(info_hash);
        out.extend_from_slice(peer_id);
        out
    }

    /// What the bytes received so far say of the peer's handshake.
    pub fn greeting(received: &[u8], info_hash: &[u8]) -> (r: Greeting)
        ensures
            r == greeting_of(received@, info_hash@),
    {
        let n = received.len();
        if n < 20 {
            return Greeting::More(20);
        }
        if !same_bytes(slice_subrange(received, 0, 20), "\x13Bittorrent Protocol".as_bytes()) {
            return Greeting::Rejected;
        }
        if n < 28 {
            return Greeting::More(28);
        }
        if !all_zero(slice_subrange(received, 20, 28)) {
            return Greeting::Rejected;
        }
        if n < 48 {
            return Greeting::More(48);
        }
        if !same_bytes(slice_subrange(received, 28, 48), info_hash) {
            return Greeting::Rejected;
        }
        if n < HANDSHAKE_LEN {
            return Greeting::More(HANDSHAKE_LEN);
        }
        Greeting::Accepted
    }

    /// The connection that a peer's handshake opens, for a torrent with the
    /// info-hash `info_hash` and `total_pieces` pieces: none unless the
    /// handshake is whole and in order. The peer is taken to have no piece,
    /// and each side to choke the other.
    pub fn connect(received: &[u8], info_hash: &[u8], total_pieces: usize) -> (r: Option<Peer>)
        ensures
            match r {
                Some(p) => greeting_of(received@, info_hash@) == Greeting::Accepted
                    && total_pieces <= max_claims() && p@ == (PeerState {
                    peer_id: received@.subrange(48, 68),
                    claims: Seq::new(total_pieces as nat, |i: int| false),
                    self_choked: true,
                    self_interested: false,
                    peer_choked: true,
                    peer_interested: false,
                }),
                None => !(greeting_of(received@, info_hash@) == Greeting::Accepted
                    && total_pieces <= max_claims()),
            },
    {
        match Peer::greeting(received, info_hash) {
            Greeting::Accepted => {},
            _ => {
                return None;
            },
        }
        if total_pieces > usize::MAX / 8 {
            return None;
        }
        let peer_id = slice_to_vec(slice_subrange(received, 48, 68));
        let bitfield = PieceSet::new(total_pieces);
        let status: u8 = SELF_CHOKED | PEER_CHOKED;
        proof {
            assert(5u8 & 1u8 == 1u8) by (bit_vector);
            assert(5u8 & 2u8 != 2u8) by (bit_vector);
            assert(5u8 & 4u8 == 4u8) by (bit_vector);
            assert(5u8 & 8u8 != 8u8) by (bit_vector);
            assert(1u8 | 4u8 == 5u8) by (bit_vector);
        }
        Some(Peer { peer_id, bitfield, status })
    }

    /// Whether the peer claims to have piece `index`.
    pub fn has_piece(&self, index: usize) -> (r: bool)
        ensures
            r == (index < self@.claims.len() && self@.claims[index as int]),
    {
        index < self.bitfield.len() && self.bitfield.get(index)
    }

    /// The number of pieces of the torrent.
    pub fn total_pieces(&self) -> (r: usize)
        ensures
            r == self@.claims.len(),
    {
        self.bitfield.len()
    }

    /// Notes whether the peer is choked by us.
    pub fn peer_choked(&mut self, status: bool)
        ensures
            final(self)@ == (PeerState { peer_choked: status, ..old(self)@ }),
    {
        proof {
            lemma_flags_apart();
            if status {
                lemma_flag_set(self.status, PEER_CHOKED, SELF_CHOKED);
                lemma_flag_set(self.status, PEER_CHOKED, SELF_INTERESTED);
                lemma_flag_set(self.status, PEER_CHOKED, PEER_INTERESTED);
            } else {
                lemma_flag_clear(self.status, PEER_CHOKED, SELF_CHOKED);
                lemma_flag_clear(self.status, PEER_CHOKED, SELF_INTERESTED);
                lemma_flag_clear(self.status, PEER_CHOKED, PEER_INTERESTED);
            }
        }
        if status {
            self.status = self.status | PEER_CHOKED;
        } else {
            self.status = self.status & !PEER_CHOKED;
        }
    }

    /// Notes whether the peer is interested in us.
    pub fn peer_interested(&mut self, status: bool)
        ensures
            final(self)@ == (PeerState { peer_interested: status, ..old(self)@ }),
    {
        proof {
            lemma_flags_apart();
            if status {
                lemma_flag_set(self.status, PEER_INTERESTED, SELF_CHOKED);
                lemma_flag_set(self.status, PEER_INTERESTED, SELF_INTERESTED);
                lemma_flag_set(self.status, PEER_INTERESTED, PEER_CHOKED);
            } else {
                lemma_flag_clear(self.status, PEER_INTERESTED, SELF_CHOKED);
                lemma_flag_clear(self.status, PEER_INTERESTED, SELF_INTERESTED);
                lemma_flag_clear(self.status, PEER_INTERESTED, PEER_CHOKED);
            }
        }
        if status {
            self.status = self.status | PEER_INTERESTED;
        } else {
            self.status = self.status & !PEER_INTERESTED;
        }
    }

    /// Whether a frame of the declared length `len` can hold a message with
    /// the id `id`.
    pub fn check_msg_len(&self, id: u8, len: u32) -> (r: bool)
        ensures
            r == valid_len(id, len, self@.claims.len()),
    {
        if id <= 3 {
            len == 1
        } else if id == 4 {
            len == 5
        } else if id == 5 {
            let pieces = self.bitfield.len();
            let whole: usize = pieces / 8;
            let bytes: usize = if pieces % 8 == 0 {
                whole
            } else {
                whole + 1
            };
            len as u64 == bytes as u64 + 1
        } else if id == 6 || id == 8 {
            len == 13
        } else if id == 7 {
            9 <= len && len < MAX_BLOCK + 9
        } else if id == 9 {
            len == 3
        } else {
            false
        }
    }

    /// Replaces the peer's claims by the bits of a `Bitfield` message.
    fn load_bitfield(&mut self, bits: &Vec<u8>)
        requires
            bits@.len() == (old(self)@.claims.len() + 7) / 8,
        ensures
            final(self)@ == (PeerState {
                claims: Seq::new(old(self)@.claims.len(), |i: int| bit_at(bits@, i)),
                ..old(self)@
            }),
    {
        let n = self.bitfield.len();
        let mut i: usize = 0;
        while i < n
            invariant
                i <= n,
                n == old(self)@.claims.len(),
                bits@.len() == (n + 7) / 8,
                self.peer_id == old(self).peer_id,
                self.status == old(self).status,
                claims(self.bitfield).len() == n,
                forall|j: int| 0 <= j < i ==> claims(self.bitfield)[j] == bit_at(bits@, j),
            decreases n - i,
        {
            let byte = bits[i / 8];
            let value = (byte / weight(i % 8)) % 2 == 1;
            self.bitfield.set(i, value);
            i += 1;
        }
        assert(claims(self.bitfield) =~= Seq::new(n as nat, |i: int| bit_at(bits@, i)));
    }

    /// Takes note of a message that has come in.
    pub fn receive(&mut self, msg: &Message)
        ensures
            final(self)@ == received(old(self)@, msg@),
    {
        match msg {
            Message::Choke => self.peer_choked(true),
            Message::Unchoke => self.peer_choked(false),
            Message::Interested => self.peer_interested(true),
            Message::NotInterested => self.peer_interested(false),
            Message::Have(index) => {
                let at = *index as usize;
                if at < self.bitfield.len() {
                    self.bitfield.set(at, true);
                }
            },
            Message::Bitfield(bits) => {
                let pieces = self.bitfield.len();
                let whole: usize = pieces / 8;
                let bytes: usize = if pieces % 8 == 0 {
                    whole
                } else {
                    whole + 1
                };
                if bits.len() == bytes {
                    self.load_bitfield(bits);
                }
            },
            _ => {},
        }
    }

    /// Looks for a message at the front of the bytes received so far, and
    /// takes note of it where there is one.
    pub fn decode_message(&mut self, buf: &[u8]) -> (r: Result<Frame, DecodeError>)
        ensures
            match frame_of(buf@, old(self)@.claims.len()) {
                Err(e) => r == Err::<Frame, DecodeError>(e) && final(self)@ == old(self)@,
                Ok(FrameView::Partial(n)) => r matches Ok(f) && f@ == FrameView::Partial(n)
                    && final(self)@ == old(self)@,
                Ok(FrameView::Whole(m, n)) => r matches Ok(f) && f@ == FrameView::Whole(m, n)
                    && final(self)@ == received(old(self)@, m),
            },
    {
        let n = buf.len();
        if n < 4 {
            return Ok(Frame::Partial(4));
        }
        let length = read_be32(buf, 0);
        if length == 0 {
            return Ok(Frame::Whole(Message::KeepAlive, 4));
        }
        if n < 5 {
            return Ok(Frame::Partial(5));
        }
        let id = buf[4];
        if !self.check_msg_len(id, length) {
            return Err(DecodeError::MessageId(id, length));
        }
        let pieces = self.bitfield.len();
        proof {
            assert(length <= 16392 || length == bitfield_len(pieces as nat));
            assert(usize::MAX >= 0xffff_ffff);
        }
        let total: usize = 4 + length as usize;
        if n < total {
            return Ok(Frame::Partial(total));
        }
        let msg = Message::decode(id, slice_subrange(buf, 5, total));
        self.receive(&msg);
        Ok(Frame::Whole(msg, total))
    }
}

/// A frame whose declared length does not go with its id is an error that
/// names both, as soon as the id is there; a frame whose length does go with
/// its id never is.
pub proof fn lemma_frame_rejection(buf: Seq<u8>, pieces: nat)
    requires
        buf.len() >= 5,
        be32(buf, 0) != 0,
    ensures
        !valid_len(buf[4], be32(buf, 0), pieces) ==> frame_of(buf, pieces) == Err::<
            FrameView,
            DecodeError,
        >(DecodeError::MessageId(buf[4], be32(buf, 0))),
        valid_len(buf[4], be32(buf, 0), pieces) ==> frame_of(buf, pieces) is Ok,
{
}

/// The lengths that go with each id: one for the four messages without a
/// body, five for `Have`, thirteen for `Request` and `Cancel`, three for
/// `Port`, the bits in whole bytes and one for `Bitfield`, and for `Piece`
/// nine at least and less than nine and 16 KiB. No length goes with any
/// other id.
pub proof fn lemma_valid_len(id: u8, len: u32, pieces: nat)
    ensures
        id <= 3 ==> (valid_len(id, len, pieces) <==> len == 1),
        id == 4 ==> (valid_len(id, len, pieces) <==> len == 5),
        id == 5 ==> (valid_len(id, len, pieces) <==> len == 1 + (pieces + 7) / 8),
        id == 6 || id == 8 ==> (valid_len(id, len, pieces) <==> len == 13),
        id == 7 ==> (valid_len(id, len, pieces) <==> 9 <= len < 16384 + 9),
        id == 9 ==> (valid_len(id, len, pieces) <==> len == 3),
        id > 9 ==> !valid_len(id, len, pieces),
        valid_len(7, 16392, pieces),
        !valid_len(7, 16393, pieces),
{
}

/// A peer that checks as we do accepts the handshake that we send for its
/// torrent.
pub proof fn lemma_own_handshake(info_hash: Seq<u8>, peer_id: Seq<u8>)
    requires
        info_hash.len() == 20,
        peer_id.len() == 20,
    ensures
        handshake_bytes(info_hash, peer_id).len() == HANDSHAKE_LEN,
        greeting_of(handshake_bytes(info_hash, peer_id), info_hash) == Greeting::Accepted,
        handshake_bytes(info_hash, peer_id).subrange(48, 68) == peer_id,
{
    let sent = handshake_bytes(info_hash, peer_id);
    lemma_protocol();
    assert(sent.subrange(0, 20) =~= protocol());
    assert(sent.subrange(20, 28) =~= Seq::new(8, |i: int| 0u8));
    assert(sent.subrange(28, 48) =~= info_hash);
    assert(sent.subrange(48, 68) =~= peer_id);
}

/// The protocol's name with its length before it is twenty bytes long, and
/// its first byte says that nineteen follow.
pub proof fn lemma_protocol()
    ensures
        protocol().len() == 20,
        protocol()[0] == 19,
{
    reveal_strlit("\x13Bittorrent Protocol");
    let name = "\x13Bittorrent Protocol";
    assert(name@.len() == 20);
    assert(is_ascii(name)) by {
        assert forall|i: int| 0 <= i < name@.len() implies (name@[i] as u32) < 128 by {
            reveal_strlit("\x13Bittorrent Protocol");
        }
    }
    is_ascii_spec_bytes(name);
}

/// A peer whose handshake has a reserved byte that is not zero, or another
/// info-hash than ours, is not accepted, whatever else its handshake holds;
/// it is rejected as soon as its info-hash is there.
pub proof fn lemma_handshake_rejection(received: Seq<u8>, info_hash: Seq<u8>)
    requires
        (exists|i: int| 20 <= i < 28 && i < received.len() && received[i] != 0) || (received.len()
            >= 48 && received.subrange(28, 48) != info_hash),
    ensures
        greeting_of(received, info_hash) != Greeting::Accepted,
        received.len() >= 48 ==> greeting_of(received, info_hash) == Greeting::Rejected,
{
    if exists|i: int| 20 <= i < 28 && i < received.len() && received[i] != 0 {
        let i = choose|i: int| 20 <= i < 28 && i < received.len() && received[i] != 0;
        if received.len() >= 28 {
            assert(received.subrange(20, 28)[i - 20] != 0);
        }
    }
}

} // verus!
