//! The peer wire messages and their encoding. A message's wire form is
//! a big-endian length prefix, an id byte, and the fixed fields; piece
//! payloads travel separately after their header.
use vstd::prelude::*;
use vstd::string::StrSliceExecFns;
use vstd::string::StringSliceAdditionalSpecFns;

use std::sync::Arc;

use crate::encdec::{be16_of, be32_of, push_be16, push_be32, push_str_bytes};

verus! {

/// Which bytes of a torrent's pieces a peer claims to have, packed
/// eight pieces to a byte.
#[derive(Debug, Clone)]
pub struct Bitfield {
    /// The packed bits.
    pub data: Vec<u8>,
}

impl Bitfield {
    /// A bitfield over the given packed bytes.
    pub fn new(data: Vec<u8>) -> (r: Bitfield)
        ensures
            r.data@ == data@,
    {
        Bitfield { data }
    }

    /// Number of packed bytes.
    pub fn bytes(&self) -> (r: usize)
        ensures
            r == self.data@.len(),
    {
        self.data.len()
    }

    /// The packed byte at index `i`.
    pub fn byte_at(&self, i: u64) -> (r: u8)
        requires
            i < self.data@.len(),
        ensures
            r == self.data@[i as int],
    {
        let n = self.data.len();
        proof {
            assert(i < n);
        }
        self.data[i as usize]
    }
}

/// A message of the peer wire protocol.
#[derive(Debug, Clone)]
pub enum Message {
    /// The opening handshake: reserved bits, info hash, peer id.
    Handshake {
        /// Reserved extension bits.
        rsv: [u8; 8],
        /// The torrent's info hash.
        hash: [u8; 20],
        /// The sending peer's id.
        id: [u8; 20],
    },
    /// Connection keep-alive.
    KeepAlive,
    /// The peer will not serve requests.
    Choke,
    /// The peer will serve requests.
    Unchoke,
    /// We want the peer's pieces.
    Interested,
    /// We want nothing from the peer.
    Uninterested,
    /// The peer has the given piece.
    Have(u32),
    /// The pieces the peer has.
    Bitfield(Bitfield),
    /// Ask for a block of a piece.
    Request {
        /// Piece index.
        index: u32,
        /// Offset within the piece.
        begin: u32,
        /// Length of the block.
        length: u32,
    },
    /// A block of a piece, with its bytes owned.
    Piece {
        /// Piece index.
        index: u32,
        /// Offset within the piece.
        begin: u32,
        /// Length of the block.
        length: u32,
        /// The block's bytes.
        data: Vec<u8>,
    },
    /// A block of a piece whose bytes are shared between recipients.
    SharedPiece {
        /// Piece index.
        index: u32,
        /// Offset within the piece.
        begin: u32,
        /// Length of the block.
        length: u32,
        /// The block's bytes, shared with other peers asking for
        /// overlapping blocks.
        data: Arc<Vec<u8>>,
    },
    /// Withdraw a block request.
    Cancel {
        /// Piece index.
        index: u32,
        /// Offset within the piece.
        begin: u32,
        /// Length of the block.
        length: u32,
    },
    /// The peer's DHT port.
    Port(u16),
    /// An extension-protocol message.
    Extension {
        /// Extension id.
        id: u8,
        /// Extension payload.
        payload: Vec<u8>,
    },
}

/// The wire bytes of a message header: length prefix, id byte, fixed
/// fields. Piece data and handshake payloads follow their headers
/// separately on the wire.
pub open spec fn encoding(m: Message) -> Seq<u8> {
    match m {
        Message::Handshake { rsv, hash, id } => seq![19u8] + ("BitTorrent protocol").spec_bytes()
            + rsv@ + hash@ + id@,
        Message::KeepAlive => be32_of(0),
        Message::Choke => be32_of(1) + seq![0u8],
        Message::Unchoke => be32_of(1) + seq![1u8],
        Message::Interested => be32_of(1) + seq![2u8],
        Message::Uninterested => be32_of(1) + seq![3u8],
        Message::Have(p) => be32_of(5) + seq![4u8] + be32_of(p),
        Message::Bitfield(ref b) => be32_of((1 + b.data@.len()) as u32) + seq![5u8] + b.data@,
        Message::Request { index, begin, length } => be32_of(13) + seq![6u8] + be32_of(index)
            + be32_of(begin) + be32_of(length),
        Message::Piece { index, begin, length, .. } => be32_of((9 + length) as u32) + seq![7u8]
            + be32_of(index) + be32_of(begin),
        Message::SharedPiece { index, begin, length, .. } => be32_of((9 + length) as u32) + seq![
            7u8,
        ] + be32_of(index) + be32_of(begin),
        Message::Cancel { index, begin, length } => be32_of(13) + seq![8u8] + be32_of(index)
            + be32_of(begin) + be32_of(length),
        Message::Port(p) => be32_of(3) + seq![9u8] + be16_of(p),
        Message::Extension { id, ref payload } => be32_of((2 + payload@.len()) as u32) + seq![
            20u8,
        ] + seq![id] + payload@,
    }
}

impl Message {
    /// The message's fields fit its length prefixes and the machine.
    pub open spec fn encodable(self) -> bool {
        match self {
            Message::Bitfield(ref b) => 1 + b.data@.len() <= u32::MAX && 5 + b.data@.len() <= usize::MAX,
            Message::Piece { length, data, .. } => 9 + length <= u32::MAX && 13 + data@.len()
                <= usize::MAX,
            Message::SharedPiece { length, data, .. } => 9 + length <= u32::MAX && 13
                + data@.len() <= usize::MAX,
            Message::Extension { ref payload, .. } => 2 + payload@.len() <= u32::MAX && 6 + payload@.len() <= usize::MAX,
            _ => true,
        }
    }

    /// The number of bytes the message occupies on the wire, payload
    /// included.
    pub open spec fn wire_len(self) -> int {
        match self {
            Message::Handshake { .. } => 68,
            Message::KeepAlive => 4,
            Message::Choke | Message::Unchoke | Message::Interested | Message::Uninterested => 5,
            Message::Port(_) => 7,
            Message::Have(_) => 9,
            Message::Bitfield(ref b) => 5 + b.data@.len() as int,
            Message::Request { .. } | Message::Cancel { .. } => 17,
            Message::Piece { ref data, .. } => 13 + data@.len() as int,
            Message::SharedPiece { ref data, .. } => 13 + data@.len() as int,
            Message::Extension { ref payload, .. } => 6 + payload@.len() as int,
        }
    }

    /// The opening handshake for a torrent: the reserved bits announce
    /// DHT and extension-protocol support.
    pub fn handshake(hash: &[u8; 20], peer_id: &[u8; 20]) -> (r: Message)
        ensures
            r matches Message::Handshake { rsv, hash: h2, id } && h2@ == hash@ && id@ == peer_id@
                && rsv@ == seq![0u8, 0u8, 0u8, 0u8, 0u8, 0x10u8, 0u8, 0x01u8],
    {
        let rsv: [u8; 8] = [0u8, 0u8, 0u8, 0u8, 0u8, 0x10u8, 0u8, 0x01u8];
        proof {
            assert(rsv@ =~= seq![0u8, 0u8, 0u8, 0u8, 0u8, 0x10u8, 0u8, 0x01u8]);
        }
        Message::Handshake { rsv, hash: *hash, id: *peer_id }
    }

    /// Ask for `len` bytes of piece `idx` starting at `offset`.
    pub fn request(idx: u32, offset: u32, len: u32) -> (r: Message)
        ensures
            r == (Message::Request { index: idx, begin: offset, length: len }),
    {
        Message::Request { index: idx, begin: offset, length: len }
    }

    /// A block whose bytes are shared between recipients.
    pub fn s_piece(index: u32, begin: u32, length: u32, data: Arc<Vec<u8>>) -> (r: Message)
        ensures
            r == (Message::SharedPiece { index, begin, length, data }),
    {
        Message::SharedPiece { index, begin, data, length }
    }

    /// The hash, peer id and reserved bits of a handshake.
    pub fn get_handshake_data(&self) -> (r: ([u8; 20], [u8; 20], [u8; 8]))
        requires
            *self is Handshake,
        ensures
            *self matches Message::Handshake { rsv, hash, id } && r.0@ == hash@ && r.1@ == id@
                && r.2@ == rsv@,
    {
        match *self {
            Message::Handshake { hash, id, rsv } => (hash, id, rsv),
            _ => {
                proof {
                    assert(false);
                }
                ([0u8; 20], [0u8; 20], [0u8; 8])
            },
        }
    }

    /// Messages that carry connection set-up rather than transfer.
    pub fn is_special(&self) -> (r: bool)
        ensures
            r == (*self is Handshake || *self is Bitfield || *self is Extension),
    {
        match *self {
            Message::Handshake { .. } | Message::Bitfield(_) | Message::Extension { .. } => true,
            _ => false,
        }
    }

    /// The number of bytes the message occupies on the wire, payload
    /// included.
    pub fn len(&self) -> (r: usize)
        requires
            self.encodable(),
        ensures
            r == self.wire_len(),
    {
        match *self {
            Message::Handshake { .. } => 68,
            Message::KeepAlive => 4,
            Message::Choke | Message::Unchoke | Message::Interested | Message::Uninterested => 5,
            Message::Port(_) => 7,
            Message::Have(_) => 9,
            Message::Bitfield(ref pf) => 5 + pf.bytes(),
            Message::Request { .. } | Message::Cancel { .. } => 17,
            Message::Piece { ref data, .. } => 13 + data.len(),
            Message::SharedPiece { ref data, .. } => 13 + data.len(),
            Message::Extension { ref payload, .. } => 6 + payload.len(),
        }
    }

    /// Appends the message's wire header to `buf`: exactly the bytes
    /// of [`encoding`].
    pub fn encode(&self, buf: &mut Vec<u8>)
        requires
            self.encodable(),
        ensures
            final(buf)@ == old(buf)@ + encoding(*self),
    {
        match *self {
            Message::Handshake { ref rsv, ref hash, ref id } => {
                buf.push(19);
                push_str_bytes(buf, "BitTorrent protocol");
                push_u8s(buf, rsv.as_slice());
                push_u8s(buf, hash.as_slice());
                push_u8s(buf, id.as_slice());
                proof {
                    assert(buf@ =~= old(buf)@ + encoding(*self));
                }
            },
            Message::KeepAlive => {
                push_be32(buf, 0);
            },
            Message::Choke => {
                push_be32(buf, 1);
                buf.push(0);
                proof {
                    assert(buf@ =~= old(buf)@ + encoding(*self));
                }
            },
            Message::Unchoke => {
                push_be32(buf, 1);
                buf.push(1);
                proof {
                    assert(buf@ =~= old(buf)@ + encoding(*self));
                }
            },
            Message::Interested => {
                push_be32(buf, 1);
                buf.push(2);
                proof {
                    assert(buf@ =~= old(buf)@ + encoding(*self));
                }
            },
            Message::Uninterested => {
                push_be32(buf, 1);
                buf.push(3);
                proof {
                    assert(buf@ =~= old(buf)@ + encoding(*self));
                }
            },
            Message::Port(p) => {
                push_be32(buf, 3);
                buf.push(0x09);
                push_be16(buf, p);
                proof {
                    assert(buf@ =~= old(buf)@ + encoding(*self));
                }
            },
            Message::Have(piece) => {
                push_be32(buf, 5);
                buf.push(4);
                push_be32(buf, piece);
                proof {
                    assert(buf@ =~= old(buf)@ + encoding(*self));
                }
            },
            Message::Bitfield(ref pf) => {
                push_be32(buf, 1 + pf.bytes() as u32);
                buf.push(5);
                push_u8s(buf, pf.data.as_slice());
                proof {
                    assert(buf@ =~= old(buf)@ + encoding(*self));
                }
            },
            Message::Request { index, begin, length } => {
                push_be32(buf, 13);
                buf.push(6);
                push_be32(buf, index);
                push_be32(buf, begin);
                push_be32(buf, length);
                proof {
                    assert(buf@ =~= old(buf)@ + encoding(*self));
                }
            },
            Message::Piece { index, begin, length, .. } => {
                push_be32(buf, 9 + length);
                buf.push(7);
                push_be32(buf, index);
                push_be32(buf, begin);
                proof {
                    assert(buf@ =~= old(buf)@ + encoding(*self));
                }
            },
            Message::SharedPiece { index, begin, length, .. } => {
                push_be32(buf, 9 + length);
                buf.push(7);
                push_be32(buf, index);
                push_be32(buf, begin);
                proof {
                    assert(buf@ =~= old(buf)@ + encoding(*self));
                }
            },
            Message::Cancel { index, begin, length } => {
                push_be32(buf, 13);
                buf.push(8);
                push_be32(buf, index);
                push_be32(buf, begin);
                push_be32(buf, length);
                proof {
                    assert(buf@ =~= old(buf)@ + encoding(*self));
                }
            },
            Message::Extension { id, ref payload } => {
                push_be32(buf, 2 + payload.len() as u32);
                buf.push(20);
                buf.push(id);
                push_u8s(buf, payload.as_slice());
                proof {
                    assert(buf@ =~= old(buf)@ + encoding(*self));
                }
            },
        }
    }
}

/// Appends a byte slice to `out`.
fn push_u8s(out: &mut Vec<u8>, s: &[u8])
    ensures
        final(out)@ == old(out)@ + s@,
{
    let mut v = vstd::slice::slice_to_vec(s);
    out.append(&mut v);
}


/// Byte-wise equality of two slices.
fn slice_eq(a: &[u8], b: &[u8]) -> (r: bool)
    ensures
        r == (a@ == b@),
{
    if a.len() != b.len() {
        assert(a@ != b@);
        return false;
    }
    let mut i: usize = 0;
    while i < a.len()
        invariant
            i <= a@.len(),
            a@.len() == b@.len(),
            forall|j: int| 0 <= j < i ==> a@[j] == b@[j],
        decreases a@.len() - i,
    {
        if a[i] != b[i] {
            assert(a@ != b@);
            return false;
        }
        i = i + 1;
    }
    assert(a@ =~= b@);
    true
}

impl PartialEq for Message {
    /// Messages are equal when their headers agree: a piece's bytes do
    /// not enter the comparison, and handshakes, bitfields and
    /// extension payloads compare only where the original fields do.
    fn eq(&self, other: &Message) -> (r: bool) {
        match (self, other) {
            (
                Message::Handshake { rsv, hash, id },
                Message::Handshake { rsv: rsv_, hash: hash_, id: id_ },
            ) => slice_eq(rsv.as_slice(), rsv_.as_slice()) && slice_eq(
                hash.as_slice(),
                hash_.as_slice(),
            ) && slice_eq(id.as_slice(), id_.as_slice()),
            (Message::KeepAlive, Message::KeepAlive) => true,
            (Message::Choke, Message::Choke) => true,
            (Message::Unchoke, Message::Unchoke) => true,
            (Message::Interested, Message::Interested) => true,
            (Message::Uninterested, Message::Uninterested) => true,
            (Message::Have(p), Message::Have(p_)) => p == p_,
            (Message::Port(p), Message::Port(p_)) => p == p_,
            (
                Message::Request { index, begin, length },
                Message::Request { index: i, begin: b, length: l },
            ) => index == i && begin == b && length == l,
            (
                Message::Piece { index, begin, length, .. },
                Message::Piece { index: i, begin: b, length: l, .. },
            ) => index == i && begin == b && length == l,
            (
                Message::Cancel { index, begin, length },
                Message::Cancel { index: i, begin: b, length: l },
            ) => index == i && begin == b && length == l,
            (
                Message::Extension { id, payload },
                Message::Extension { id: i, payload: p },
            ) => *id == *i && slice_eq(payload.as_slice(), p.as_slice()),
            _ => false,
        }
    }
}

impl vstd::std_specs::cmp::PartialEqSpecImpl for Message {
    open spec fn obeys_eq_spec() -> bool {
        true
    }

    open spec fn eq_spec(&self, other: &Message) -> bool {
        match (self, other) {
            (
                Message::Handshake { rsv, hash, id },
                Message::Handshake { rsv: rsv_, hash: hash_, id: id_ },
            ) => rsv@ == rsv_@ && hash@ == hash_@ && id@ == id_@,
            (Message::KeepAlive, Message::KeepAlive) => true,
            (Message::Choke, Message::Choke) => true,
            (Message::Unchoke, Message::Unchoke) => true,
            (Message::Interested, Message::Interested) => true,
            (Message::Uninterested, Message::Uninterested) => true,
            (Message::Have(p), Message::Have(p_)) => p == p_,
            (Message::Port(p), Message::Port(p_)) => p == p_,
            (
                Message::Request { index, begin, length },
                Message::Request { index: i, begin: b, length: l },
            ) => index == i && begin == b && length == l,
            (
                Message::Piece { index, begin, length, .. },
                Message::Piece { index: i, begin: b, length: l, .. },
            ) => index == i && begin == b && length == l,
            (
                Message::Cancel { index, begin, length },
                Message::Cancel { index: i, begin: b, length: l },
            ) => index == i && begin == b && length == l,
            (
                Message::Extension { id, payload },
                Message::Extension { id: i, payload: p },
            ) => id == i && payload@ == p@,
            _ => false,
        }
    }
}

} // verus!
