//! What travels between this client, the tracker and a peer: the handshake,
//! block requests and blocks, the tracker's parameters and its list of peers.

use crate::bencode::{lookup, Bencode, BencodeValue, ParseError};
use crate::bencode_decode::{decode, find_entry};
use crate::wire::{array_from, be32, be32_bytes, bytes_equal, u32_from_be, u32_to_be};
use vstd::prelude::*;
use vstd::slice::{slice_subrange, slice_to_vec};
use vstd::string::StringExecFns;

verus! {

/// The parameters of an announce request, but for the info-hash.
#[derive(Debug)]
pub struct TrackerSend {
    pub peer_id: String,
    pub port: u16,
    pub uploaded: usize,
    pub downloaded: usize,
    pub left: usize,
    pub compact: u8,
}

impl TrackerSend {
    /// The parameters of a first announce: nothing moved yet, `left` bytes to
    /// fetch, port 6881, and the peer list asked for in its compact form.
    pub fn new(peer_id: String, left: usize) -> (t: TrackerSend)
        ensures
            t.peer_id == peer_id,
            t.port == 6881,
            t.uploaded == 0,
            t.downloaded == 0,
            t.left == left,
            t.compact == 1,
    {
        TrackerSend { peer_id, port: 6881, uploaded: 0, downloaded: 0, left, compact: 1 }
    }
}

/// The address of a peer: four bytes of IPv4 and a port.
#[derive(Debug, Clone, Copy, PartialEq, Eq)]
pub struct PeerAddress {
    pub ip: [u8; 4],
    pub port: u16,
}

/// The peers that a tracker named, in the tracker's order.
#[derive(Debug, Clone)]
pub struct Peers(pub Vec<PeerAddress>);

/// The peer that stands in the compact list `v` at position `i`.
pub open spec fn compact_peer(v: Seq<u8>, i: int, peer: PeerAddress) -> bool {
    &&& peer.ip@ == v.subrange(6 * i, 6 * i + 4)
    &&& peer.port == v[6 * i + 4] as int * 256 + v[6 * i + 5] as int
}

impl Peers {
    /// Reads a compact peer list: six bytes a peer, the address and then the
    /// port, most significant byte first. A length that is no multiple of six
    /// is refused.
    pub fn from_bytes(v: &[u8]) -> (r: Result<Peers, ParseError>)
        ensures
            r is Ok <==> v@.len() % 6 == 0,
            r matches Ok(peers) ==> {
                &&& peers.0@.len() == v@.len() / 6
                &&& forall|i: int|
                    0 <= i < peers.0@.len() ==> compact_peer(v@, i, #[trigger] peers.0@[i])
            },
            r matches Err(e) ==> e == ParseError::Schema,
    {
        let total: usize = v.len();
        if total % 6 != 0 {
            return Err(ParseError::Schema);
        }
        let count: usize = total / 6;
        let mut peers: Vec<PeerAddress> = Vec::new();
        let mut i: usize = 0;
        while i < count
            invariant
                i <= count,
                count * 6 == total == v@.len(),
                peers@.len() == i,
                forall|k: int| 0 <= k < i ==> compact_peer(v@, k, #[trigger] peers@[k]),
            decreases count - i,
        {
            let ip: [u8; 4] = array_from::<4>(v, 6 * i);
            let high: u16 = v[6 * i + 4] as u16;
            let low: u16 = v[6 * i + 5] as u16;
            peers.push(PeerAddress { ip, port: high * 256 + low });
            i += 1;
        }
        Ok(Peers(peers))
    }
}

/// What a tracker answers: how long to wait before asking again, in seconds,
/// and the peers.
#[derive(Debug, Clone)]
pub struct TrackerResponse {
    pub interval: usize,
    pub peers: Peers,
}

/// The bytes of the key `interval`.
pub open spec fn key_interval() -> Seq<u8> {
    seq![105u8, 110, 116, 101, 114, 118, 97, 108]
}

/// The bytes of the key `peers`.
pub open spec fn key_peers() -> Seq<u8> {
    seq![112u8, 101, 101, 114, 115]
}

/// The interval and the compact peer list that a decoded answer holds: the
/// answer is a dictionary whose `interval` is an integer that is not negative
/// and fits a `usize`, and whose `peers` is a byte string of a multiple of six
/// bytes.
pub open spec fn tracker_answer(v: Bencode) -> Option<(int, Seq<u8>)> {
    match v {
        Bencode::Dictionary(entries) => match (
            lookup(entries, key_interval(), 0),
            lookup(entries, key_peers(), 0),
        ) {
            (Some(Bencode::Integer(i)), Some(Bencode::ByteString(b))) => if 0 <= i <= usize::MAX
                && b.len() % 6 == 0 {
                Some((i, b))
            } else {
                None
            },
            _ => None,
        },
        _ => None,
    }
}

impl TrackerResponse {
    /// Reads the answer out of a decoded value.
    pub fn from_bencode(v: &BencodeValue) -> (r: Result<TrackerResponse, ParseError>)
        ensures
            match r {
                Ok(t) => tracker_answer(v@) matches Some((interval, b)) && t.interval == interval
                    && t.peers.0@.len() == b.len() / 6 && forall|i: int|
                    0 <= i < t.peers.0@.len() ==> compact_peer(b, i, #[trigger] t.peers.0@[i]),
                Err(e) => e == ParseError::Schema && tracker_answer(v@) is None,
            },
    {
        let key_interval: [u8; 8] = [105, 110, 116, 101, 114, 118, 97, 108];
        let key_peers: [u8; 5] = [112, 101, 101, 114, 115];
        proof {
            assert(key_interval@ =~= self::key_interval());
            assert(key_peers@ =~= self::key_peers());
        }
        match v {
            BencodeValue::Dictionary(entries) => {
                proof {
                    crate::bencode::lemma_view_dictionary(*entries);
                }
                let interval = match find_entry(entries, key_interval.as_slice()) {
                    Some(at) => match &entries[at].1 {
                        BencodeValue::Integer(i) => {
                            if *i < 0 || *i as u64 > usize::MAX as u64 {
                                return Err(ParseError::Schema);
                            }
                            *i as usize
                        },
                        _ => {
                            return Err(ParseError::Schema);
                        },
                    },
                    None => {
                        return Err(ParseError::Schema);
                    },
                };
                match find_entry(entries, key_peers.as_slice()) {
                    Some(at) => match &entries[at].1 {
                        BencodeValue::ByteString(b) => match Peers::from_bytes(b.as_slice()) {
                            Ok(peers) => Ok(TrackerResponse { interval, peers }),
                            Err(_) => Err(ParseError::Schema),
                        },
                        _ => Err(ParseError::Schema),
                    },
                    None => Err(ParseError::Schema),
                }
            },
            _ => Err(ParseError::Schema),
        }
    }

    /// Decodes a tracker's answer. Bytes that follow the dictionary are not
    /// looked at.
    pub fn parse(bytes: &[u8]) -> (r: Result<TrackerResponse, ParseError>)
        ensures
            match r {
                Ok(t) => crate::bencode::parse_value(bytes@) matches Some((v, rest))
                    && tracker_answer(v) matches Some((interval, b)) && t.interval == interval
                    && t.peers.0@.len() == b.len() / 6 && forall|i: int|
                    0 <= i < t.peers.0@.len() ==> compact_peer(b, i, #[trigger] t.peers.0@[i]),
                Err(ParseError::Syntax) => crate::bencode::parse_value(bytes@) is None,
                Err(ParseError::Schema) => crate::bencode::parse_value(bytes@) matches Some(
                    (v, rest),
                ) && tracker_answer(v) is None,
            },
    {
        match decode(bytes) {
            Err(_) => Err(ParseError::Syntax),
            Ok((v, rest)) => match TrackerResponse::from_bencode(&v) {
                Ok(t) => Ok(t),
                Err(_) => Err(ParseError::Schema),
            },
        }
    }
}

/// The nineteen bytes of the protocol's name, `BitTorrent protocol`.
pub open spec fn protocol_name() -> Seq<u8> {
    seq![
        66u8, 105, 116, 84, 111, 114, 114, 101, 110, 116, 32, 112, 114, 111, 116, 111, 99, 111,
        108,
    ]
}

/// The first message on a connection, both ways: 68 bytes.
#[derive(Debug, Clone, Copy, PartialEq, Eq)]
pub struct HandShake {
    pub len: u8,
    pub bittorrent: [u8; 19],
    pub reserved: [u8; 8],
    pub sha_hash: [u8; 20],
    pub peer_id: [u8; 20],
}

/// Why a handshake failed.
#[derive(Debug, Clone, Copy, PartialEq, Eq, Structural)]
pub enum HandshakeError {
    /// The transport gave other than 68 bytes.
    Truncated { received: usize },
    /// The first byte is not 19.
    BadLength { length: u8 },
    /// The protocol's name is not `BitTorrent protocol`.
    BadProtocol,
    /// The peer answered for another torrent.
    InfoHashMismatch,
}

/// Where a handshake stands. It starts unsent and ends completed or failed.
#[derive(Debug, Clone, Copy, PartialEq, Eq)]
pub enum HandshakeState {
    Unsent,
    Completed { peer_id: [u8; 20] },
    Failed { error: HandshakeError },
}

impl HandShake {
    /// The 68 bytes of the handshake, in the order in which they are sent.
    pub open spec fn wire(&self) -> Seq<u8> {
        seq![self.len] + self.bittorrent@ + self.reserved@ + self.sha_hash@ + self.peer_id@
    }

    /// The handshake that this client sends: length 19, the protocol's name,
    /// eight zero bytes, the info-hash and the peer id.
    pub fn new(hash: [u8; 20], peer_id: [u8; 20]) -> (h: Self)
        ensures
            h.len == 19,
            h.bittorrent@ == protocol_name(),
            h.reserved@ == Seq::new(8, |i: int| 0u8),
            h.sha_hash == hash,
            h.peer_id == peer_id,
    {
        let bittorrent: [u8; 19] = [
            66, 105, 116, 84, 111, 114, 114, 101, 110, 116, 32, 112, 114, 111, 116, 111, 99, 111,
            108,
        ];
        let reserved: [u8; 8] = [0u8; 8];
        proof {
            assert(bittorrent@ =~= protocol_name());
            assert(reserved@ =~= Seq::new(8, |i: int| 0u8));
        }
        HandShake { len: 19, bittorrent, reserved, sha_hash: hash, peer_id }
    }

    /// The handshake as the 68 bytes that go over the wire.
    pub fn to_bytes(&self) -> (bytes: [u8; 68])
        ensures
            bytes@ == self.wire(),
    {
        let mut out: Vec<u8> = Vec::new();
        out.push(self.len);
        out.extend_from_slice(self.bittorrent.as_slice());
        out.extend_from_slice(self.reserved.as_slice());
        out.extend_from_slice(self.sha_hash.as_slice());
        out.extend_from_slice(self.peer_id.as_slice());
        assert(out@ =~= self.wire());
        let bytes = array_from::<68>(out.as_slice(), 0);
        assert(bytes@ =~= self.wire());
        bytes
    }

    /// The handshake that 68 bytes off the wire hold. Nothing is checked.
    pub fn from_bytes(bytes: &[u8; 68]) -> (h: Self)
        ensures
            h.wire() == bytes@,
    {
        let s = bytes.as_slice();
        let h = HandShake {
            len: s[0],
            bittorrent: array_from::<19>(s, 1),
            reserved: array_from::<8>(s, 20),
            sha_hash: array_from::<20>(s, 28),
            peer_id: array_from::<20>(s, 48),
        };
        assert(h.wire() =~= bytes@);
        h
    }

    /// Checks a peer's handshake against the torrent that was asked for, and
    /// gives the peer's id. The reserved bytes are accepted as they are.
    pub fn validate(&self, info_hash: &[u8; 20]) -> (r: Result<[u8; 20], HandshakeError>)
        ensures
            match r {
                Ok(id) => self.len == 19 && self.bittorrent@ == protocol_name() && self.sha_hash@
                    == info_hash@ && id == self.peer_id,
                Err(HandshakeError::BadLength { length }) => length == self.len && self.len != 19,
                Err(HandshakeError::BadProtocol) => self.len == 19 && self.bittorrent@
                    != protocol_name(),
                Err(HandshakeError::InfoHashMismatch) => self.len == 19 && self.bittorrent@
                    == protocol_name() && self.sha_hash@ != info_hash@,
                Err(HandshakeError::Truncated { received }) => false,
            },
    {
        if self.len != 19 {
            return Err(HandshakeError::BadLength { length: self.len });
        }
        let name: [u8; 19] = [
            66, 105, 116, 84, 111, 114, 114, 101, 110, 116, 32, 112, 114, 111, 116, 111, 99, 111,
            108,
        ];
        proof {
            assert(name@ =~= protocol_name());
        }
        if !bytes_equal(self.bittorrent.as_slice(), name.as_slice()) {
            return Err(HandshakeError::BadProtocol);
        }
        if !bytes_equal(self.sha_hash.as_slice(), info_hash.as_slice()) {
            return Err(HandshakeError::InfoHashMismatch);
        }
        Ok(self.peer_id)
    }

    /// Ends the handshake that was opened with `self`: `reply` is what the
    /// transport gave back. The handshake is completed when the reply is 68
    /// bytes that name this protocol and this torrent, and failed otherwise.
    pub fn receive(&self, reply: &[u8]) -> (state: HandshakeState)
        ensures
            match state {
                HandshakeState::Unsent => false,
                HandshakeState::Completed { peer_id } => {
                    &&& reply@.len() == 68
                    &&& reply@[0] == 19
                    &&& reply@.subrange(1, 20) == protocol_name()
                    &&& reply@.subrange(28, 48) == self.sha_hash@
                    &&& peer_id@ == reply@.subrange(48, 68)
                },
                HandshakeState::Failed { error } => match error {
                    HandshakeError::Truncated { received } => received == reply@.len()
                        && reply@.len() != 68,
                    HandshakeError::BadLength { length } => reply@.len() == 68 && length
                        == reply@[0] && length != 19,
                    HandshakeError::BadProtocol => reply@.len() == 68 && reply@[0] == 19
                        && reply@.subrange(1, 20) != protocol_name(),
                    HandshakeError::InfoHashMismatch => reply@.len() == 68 && reply@[0] == 19
                        && reply@.subrange(1, 20) == protocol_name() && reply@.subrange(28, 48)
                        != self.sha_hash@,
                },
            },
    {
        if reply.len() != 68 {
            return HandshakeState::Failed {
                error: HandshakeError::Truncated { received: reply.len() },
            };
        }
        let bytes: [u8; 68] = array_from::<68>(reply, 0);
        let theirs = HandShake::from_bytes(&bytes);
        proof {
            assert(bytes@ =~= reply@);
            let w = theirs.wire();
            assert(w[0] == theirs.len);
            assert(w.subrange(1, 20) =~= theirs.bittorrent@);
            assert(w.subrange(28, 48) =~= theirs.sha_hash@);
            assert(w.subrange(48, 68) =~= theirs.peer_id@);
        }
        match theirs.validate(&self.sha_hash) {
            Ok(peer_id) => HandshakeState::Completed { peer_id },
            Err(error) => HandshakeState::Failed { error },
        }
    }
}

/// What a block request names.
pub struct RequestFields {
    pub index: u32,
    pub begin: u32,
    pub length: u32,
}

/// The payload of a `Request` or `Cancel` message: which piece, where in it
/// the block begins, and how long the block is. Each is held as it goes over
/// the wire, most significant byte first.
#[derive(Debug, Clone, Copy, PartialEq, Eq)]
pub struct Request {
    index: [u8; 4],
    begin: [u8; 4],
    length: [u8; 4],
}

impl View for Request {
    type V = RequestFields;

    closed spec fn view(&self) -> RequestFields {
        RequestFields {
            index: be32(self.index[0], self.index[1], self.index[2], self.index[3]) as u32,
            begin: be32(self.begin[0], self.begin[1], self.begin[2], self.begin[3]) as u32,
            length: be32(self.length[0], self.length[1], self.length[2], self.length[3]) as u32,
        }
    }
}

/// The twelve bytes of a block request on the wire.
pub open spec fn request_bytes(fields: RequestFields) -> Seq<u8> {
    be32_bytes(fields.index) + be32_bytes(fields.begin) + be32_bytes(fields.length)
}

impl Request {
    pub fn new(index: u32, begin: u32, length: u32) -> (r: Self)
        ensures
            r@ == (RequestFields { index, begin, length }),
    {
        proof {
            crate::wire::lemma_be32_of_bytes(index);
            crate::wire::lemma_be32_of_bytes(begin);
            crate::wire::lemma_be32_of_bytes(length);
        }
        Self { index: u32_to_be(index), begin: u32_to_be(begin), length: u32_to_be(length) }
    }

    pub fn index(&self) -> (x: u32)
        ensures
            x == self@.index,
    {
        u32_from_be(self.index[0], self.index[1], self.index[2], self.index[3])
    }

    pub fn begin(&self) -> (x: u32)
        ensures
            x == self@.begin,
    {
        u32_from_be(self.begin[0], self.begin[1], self.begin[2], self.begin[3])
    }

    pub fn length(&self) -> (x: u32)
        ensures
            x == self@.length,
    {
        u32_from_be(self.length[0], self.length[1], self.length[2], self.length[3])
    }

    /// The request as the twelve bytes of a message payload.
    pub fn to_bytes(&self) -> (bytes: [u8; 12])
        ensures
            bytes@ == request_bytes(self@),
    {
        let mut out: Vec<u8> = Vec::new();
        out.extend_from_slice(self.index.as_slice());
        out.extend_from_slice(self.begin.as_slice());
        out.extend_from_slice(self.length.as_slice());
        proof {
            crate::wire::lemma_bytes_of_be32(
                self.index[0],
                self.index[1],
                self.index[2],
                self.index[3],
            );
            crate::wire::lemma_bytes_of_be32(
                self.begin[0],
                self.begin[1],
                self.begin[2],
                self.begin[3],
            );
            crate::wire::lemma_bytes_of_be32(
                self.length[0],
                self.length[1],
                self.length[2],
                self.length[3],
            );
            assert(self.index@ =~= be32_bytes(self@.index));
            assert(self.begin@ =~= be32_bytes(self@.begin));
            assert(self.length@ =~= be32_bytes(self@.length));
            assert(out@ =~= request_bytes(self@));
        }
        let bytes = array_from::<12>(out.as_slice(), 0);
        assert(bytes@ =~= request_bytes(self@));
        bytes
    }

    /// The request that a message payload holds; `None` unless the payload is
    /// twelve bytes.
    pub fn from_bytes(payload: &[u8]) -> (r: Option<Self>)
        ensures
            r is Some <==> payload@.len() == 12,
            r matches Some(request) ==> request_bytes(request@) == payload@,
    {
        if payload.len() != 12 {
            return None;
        }
        let request = Self {
            index: array_from::<4>(payload, 0),
            begin: array_from::<4>(payload, 4),
            length: array_from::<4>(payload, 8),
        };
        proof {
            crate::wire::lemma_bytes_of_be32(payload@[0], payload@[1], payload@[2], payload@[3]);
            crate::wire::lemma_bytes_of_be32(payload@[4], payload@[5], payload@[6], payload@[7]);
            crate::wire::lemma_bytes_of_be32(payload@[8], payload@[9], payload@[10], payload@[11]);
            assert(request.index@[0] == payload@[0]);
            assert(request.begin@[0] == payload@[4]);
            assert(request.length@[0] == payload@[8]);
            assert(request_bytes(request@) =~= payload@);
        }
        Some(request)
    }
}

/// What a `Piece` message carries.
pub struct PieceFields {
    pub index: u32,
    pub begin: u32,
    pub block: Seq<u8>,
}

/// The payload of a `Piece` message: which piece, where in it the block
/// begins, and the block's bytes.
#[derive(Debug, Clone, PartialEq, Eq)]
pub struct Piece {
    index: [u8; 4],
    begin: [u8; 4],
    block: Vec<u8>,
}

impl View for Piece {
    type V = PieceFields;

    closed spec fn view(&self) -> PieceFields {
        PieceFields {
            index: be32(self.index[0], self.index[1], self.index[2], self.index[3]) as u32,
            begin: be32(self.begin[0], self.begin[1], self.begin[2], self.begin[3]) as u32,
            block: self.block@,
        }
    }
}

impl Piece {
    /// The piece message that a payload holds: eight bytes of header, then
    /// the block. `None` for a payload shorter than the header.
    pub fn from_payload(payload: &[u8]) -> (r: Option<Self>)
        ensures
            r is Some <==> payload@.len() >= 8,
            r matches Some(piece) ==> {
                &&& piece@.index == crate::wire::be32_at(payload@, 0)
                &&& piece@.begin == crate::wire::be32_at(payload@, 4)
                &&& piece@.block == payload@.skip(8)
            },
    {
        if payload.len() < 8 {
            return None;
        }
        let piece = Self {
            index: array_from::<4>(payload, 0),
            begin: array_from::<4>(payload, 4),
            block: slice_to_vec(slice_subrange(payload, 8, payload.len())),
        };
        proof {
            crate::wire::lemma_bytes_of_be32(payload@[0], payload@[1], payload@[2], payload@[3]);
            crate::wire::lemma_bytes_of_be32(payload@[4], payload@[5], payload@[6], payload@[7]);
            assert(piece.index@[0] == payload@[0] && piece.index@[1] == payload@[1]
                && piece.index@[2] == payload@[2] && piece.index@[3] == payload@[3]);
            assert(piece.begin@[0] == payload@[4] && piece.begin@[1] == payload@[5]
                && piece.begin@[2] == payload@[6] && piece.begin@[3] == payload@[7]);
            assert(piece.block@ =~= payload@.skip(8));
        }
        Some(piece)
    }

    pub fn index(&self) -> (x: u32)
        ensures
            x == self@.index,
    {
        u32_from_be(self.index[0], self.index[1], self.index[2], self.index[3])
    }

    pub fn begin(&self) -> (x: u32)
        ensures
            x == self@.begin,
    {
        u32_from_be(self.begin[0], self.begin[1], self.begin[2], self.begin[3])
    }

    pub fn block(&self) -> (b: &[u8])
        ensures
            b@ == self@.block,
    {
        self.block.as_slice()
    }
}

/// The hexadecimal digit for a number below sixteen, in lower case.
pub open spec fn hex_digit(n: int) -> char {
    seq!['0', '1', '2', '3', '4', '5', '6', '7', '8', '9', 'a', 'b', 'c', 'd', 'e', 'f'][n]
}

/// Each byte as a percent sign and its two hexadecimal digits.
pub open spec fn percent_encoded(bytes: Seq<u8>) -> Seq<char>
    decreases bytes.len(),
{
    if bytes.len() == 0 {
        Seq::empty()
    } else {
        percent_encoded(bytes.drop_last()) + seq![
            '%',
            hex_digit(bytes.last() as int / 16),
            hex_digit(bytes.last() as int % 16),
        ]
    }
}

/// `hex::encode` on one byte: two characters from `0123456789abcdef`, the
/// one for the high four bits first.
#[verifier::external_body]
pub(crate) fn hex_of_byte(byte: u8) -> (text: String)
    ensures
        text@ == seq![hex_digit(byte as int / 16), hex_digit(byte as int % 16)],
{
    hex::encode([byte])
}

/// The info-hash as it goes into an announce URL: every byte escaped, also
/// those that a URL could hold as they are.
pub fn url_encode(t: &[u8; 20]) -> (encoded: String)
    ensures
        encoded@ == percent_encoded(t@),
{
    let mut encoded = String::new();
    let mut i: usize = 0;
    proof {
        assert(t@.take(0) =~= Seq::<u8>::empty());
    }
    while i < 20
        invariant
            i <= 20,
            encoded@ == percent_encoded(t@.take(i as int)),
        decreases 20 - i,
    {
        let digits = hex_of_byte(t[i]);
        proof {
            reveal_strlit("%");
            assert("%"@ =~= seq!['%']);
            let longer = t@.take(i + 1);
            assert(longer.drop_last() =~= t@.take(i as int));
            assert(longer.last() == t@[i as int]);
            assert(encoded@ + "%"@ + digits@ =~= percent_encoded(longer));
        }
        encoded.append("%");
        encoded.append(digits.as_str());
        i += 1;
    }
    proof {
        assert(t@.take(20) =~= t@);
    }
    encoded
}

/// The URL of an announce request: the tracker's address, a question mark,
/// the parameters, and the info-hash as the last parameter.
pub fn tracker_url(announce: &str, params: &str, info_hash: &[u8; 20]) -> (url: String)
    ensures
        url@ == announce@ + seq!['?'] + params@ + "&info_hash="@ + percent_encoded(info_hash@),
{
    let mut url = String::from_str(announce);
    proof {
        reveal_strlit("?");
        assert("?"@ =~= seq!['?']);
    }
    url.append("?");
    url.append(params);
    url.append("&info_hash=");
    let hash = url_encode(info_hash);
    url.append(hash.as_str());
    url
}

} // verus!
