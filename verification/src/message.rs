//! Peer messages and their length-prefixed framing.
//!
//! A frame is a four-byte big-endian length, one tag byte and `length - 1`
//! payload bytes. A frame of length zero is a keep-alive and carries nothing.

use crate::buffer::{buffered, put_byte};
use crate::wire::{be32_at, be32_bytes, u32_from_be, u32_to_be};
use bytes::BytesMut;
use vstd::prelude::*;
use vstd::slice::{slice_subrange, slice_to_vec};

verus! {

/// The largest frame length that is accepted or produced: 64 KiB.
pub const MAX: usize = 65536;

/// The kind of a peer message; its position in this list is its byte on the wire.
#[derive(Debug, Clone, Copy, PartialEq, Eq, Structural)]
pub enum MessageTag {
    Choke,
    Unchoke,
    Interested,
    NotInterested,
    Have,
    Bitfield,
    Request,
    Piece,
    Cancel,
}

/// The byte that stands for a tag on the wire.
pub open spec fn tag_byte(tag: MessageTag) -> u8 {
    match tag {
        MessageTag::Choke => 0,
        MessageTag::Unchoke => 1,
        MessageTag::Interested => 2,
        MessageTag::NotInterested => 3,
        MessageTag::Have => 4,
        MessageTag::Bitfield => 5,
        MessageTag::Request => 6,
        MessageTag::Piece => 7,
        MessageTag::Cancel => 8,
    }
}

/// The tag that a byte stands for, if any.
pub open spec fn tag_of(byte: u8) -> Option<MessageTag> {
    if byte == 0 {
        Some(MessageTag::Choke)
    } else if byte == 1 {
        Some(MessageTag::Unchoke)
    } else if byte == 2 {
        Some(MessageTag::Interested)
    } else if byte == 3 {
        Some(MessageTag::NotInterested)
    } else if byte == 4 {
        Some(MessageTag::Have)
    } else if byte == 5 {
        Some(MessageTag::Bitfield)
    } else if byte == 6 {
        Some(MessageTag::Request)
    } else if byte == 7 {
        Some(MessageTag::Piece)
    } else if byte == 8 {
        Some(MessageTag::Cancel)
    } else {
        None
    }
}

impl MessageTag {
    /// The tag whose wire byte is `byte`; `None` for a byte above 8.
    pub fn from_repr(byte: u8) -> (tag: Option<MessageTag>)
        ensures
            tag == tag_of(byte),
    {
        match byte {
            0 => Some(MessageTag::Choke),
            1 => Some(MessageTag::Unchoke),
            2 => Some(MessageTag::Interested),
            3 => Some(MessageTag::NotInterested),
            4 => Some(MessageTag::Have),
            5 => Some(MessageTag::Bitfield),
            6 => Some(MessageTag::Request),
            7 => Some(MessageTag::Piece),
            8 => Some(MessageTag::Cancel),
            _ => None,
        }
    }

    /// The wire byte of this tag.
    pub fn repr(self) -> (byte: u8)
        ensures
            byte == tag_byte(self),
            tag_of(byte) == Some(self),
    {
        match self {
            MessageTag::Choke => 0,
            MessageTag::Unchoke => 1,
            MessageTag::Interested => 2,
            MessageTag::NotInterested => 3,
            MessageTag::Have => 4,
            MessageTag::Bitfield => 5,
            MessageTag::Request => 6,
            MessageTag::Piece => 7,
            MessageTag::Cancel => 8,
        }
    }
}

/// One peer message. `length` counts the tag byte and the payload.
#[derive(Debug, Clone)]
pub struct Message {
    pub length: u32,
    pub tag: MessageTag,
    pub payload: Vec<u8>,
}

impl Message {
    /// A message's `length` field agrees with its payload.
    pub open spec fn well_formed(&self) -> bool {
        self.length == self.payload@.len() + 1
    }

    /// A message with the given tag and payload, its length set to match.
    pub fn new(tag: MessageTag, payload: Vec<u8>) -> (m: Message)
        requires
            payload@.len() < u32::MAX,
        ensures
            m.tag == tag,
            m.payload == payload,
            m.well_formed(),
    {
        let length: u32 = payload.len() as u32 + 1;
        Message { length, tag, payload }
    }
}

/// Why a frame was refused.
#[derive(Debug, Clone, Copy, PartialEq, Eq, Structural)]
pub enum FrameError {
    /// The length of the frame is above `MAX`.
    TooLarge { length: usize },
    /// The frame is complete but its tag byte names no message kind.
    UnknownTag { tag: u8 },
}

/// What the head of a byte stream holds.
#[allow(inconsistent_fields)]
pub enum Decoded {
    /// Not enough bytes yet for a whole frame.
    Incomplete,
    /// One whole frame.
    Frame { length: u32, tag: MessageTag, payload: Seq<u8> },
    /// A header that declares more than `MAX` bytes.
    TooLarge { length: usize },
    /// A whole frame with a tag byte above 8.
    UnknownTag { tag: u8 },
}

/// The stream without the keep-alive frames at its head.
pub open spec fn without_keepalives(s: Seq<u8>) -> Seq<u8>
    decreases s.len(),
{
    if s.len() >= 4 && be32_at(s, 0) == 0 {
        without_keepalives(s.skip(4))
    } else {
        s
    }
}

/// What decoding finds at the head of `s`, and the bytes that stay buffered.
///
/// Keep-alives at the head are always consumed. A frame is consumed whole,
/// header included; in every other case the rest of the stream stays.
pub open spec fn frame_decode(s: Seq<u8>) -> (Decoded, Seq<u8>) {
    let t = without_keepalives(s);
    if t.len() < 4 {
        (Decoded::Incomplete, t)
    } else {
        let len = be32_at(t, 0);
        if len > MAX {
            (Decoded::TooLarge { length: len as usize }, t)
        } else if t.len() < 4 + len {
            (Decoded::Incomplete, t)
        } else {
            match tag_of(t[4]) {
                None => (Decoded::UnknownTag { tag: t[4] }, t),
                Some(tag) => (
                    Decoded::Frame { length: len as u32, tag, payload: t.subrange(5, 4 + len) },
                    t.skip(4 + len),
                ),
            }
        }
    }
}

/// The bytes of the frame that carries `payload` under `tag`.
pub open spec fn frame_bytes(tag: MessageTag, payload: Seq<u8>) -> Seq<u8> {
    be32_bytes((payload.len() + 1) as u32) + seq![tag_byte(tag)] + payload
}

/// The length of the frame that carries `payload`: one more than the
/// payload's, or the largest `usize` where that does not fit.
pub open spec fn frame_length(payload: Seq<u8>) -> usize {
    if payload.len() + 1 > usize::MAX {
        usize::MAX
    } else {
        (payload.len() + 1) as usize
    }
}

/// What a result of `MessageFramer::decode` says, as a `Decoded`.
pub open spec fn decoded(r: Result<Option<Message>, FrameError>) -> Decoded {
    match r {
        Ok(None) => Decoded::Incomplete,
        Ok(Some(m)) => Decoded::Frame { length: m.length, tag: m.tag, payload: m.payload@ },
        Err(FrameError::TooLarge { length }) => Decoded::TooLarge { length },
        Err(FrameError::UnknownTag { tag }) => Decoded::UnknownTag { tag },
    }
}

/// The streaming codec for peer messages. It holds no state of its own: all
/// pending bytes live in the buffer it is handed.
pub struct MessageFramer;

impl MessageFramer {
    /// Takes the next message off the head of `src`, if a whole one is there.
    ///
    /// `Ok(None)` asks for more bytes. An error leaves the offending bytes
    /// in place.
    pub fn decode(&mut self, src: &mut BytesMut) -> (r: Result<Option<Message>, FrameError>)
        ensures
            decoded(r) == frame_decode(buffered(*old(src))).0,
            buffered(*final(src)) == frame_decode(buffered(*old(src))).1,
            r matches Ok(Some(m)) ==> m.well_formed(),
    {
        loop
            invariant
                without_keepalives(buffered(*src)) == without_keepalives(buffered(*old(src))),
            decreases buffered(*src).len(),
        {
            let available = src.len();
            if available < 4 {
                return Ok(None);
            }
            let bytes: &[u8] = core::ops::Deref::deref(&*src);
            let len = u32_from_be(bytes[0], bytes[1], bytes[2], bytes[3]);
            let len_u = len as usize;
            if len == 0 {
                bytes::Buf::advance(src, 4);
                continue ;
            }
            if len_u > MAX {
                return Err(FrameError::TooLarge { length: len_u });
            }
            if available < 4 + len_u {
                src.reserve(4 + len_u - available);
                return Ok(None);
            }
            let byte = bytes[4];
            match MessageTag::from_repr(byte) {
                None => {
                    return Err(FrameError::UnknownTag { tag: byte });
                },
                Some(tag) => {
                    let payload = slice_to_vec(slice_subrange(bytes, 5, 4 + len_u));
                    bytes::Buf::advance(src, 4 + len_u);
                    return Ok(Some(Message { length: len, tag, payload }));
                },
            }
        }
    }

    /// Appends the frame of `item` to `dst`. A payload that would make the
    /// frame longer than `MAX` is refused and `dst` stays as it was.
    pub fn encode(&mut self, item: Message, dst: &mut BytesMut) -> (r: Result<(), FrameError>)
        requires
            item.payload@.len() < MAX ==> buffered(*old(dst)).len() + 5 + item.payload@.len()
                <= isize::MAX,
        ensures
            r is Ok <==> item.payload@.len() + 1 <= MAX,
            r is Ok ==> buffered(*final(dst)) == buffered(*old(dst)) + frame_bytes(
                item.tag,
                item.payload@,
            ),
            r is Err ==> buffered(*final(dst)) == buffered(*old(dst)) && r
                == Err::<(), FrameError>(
                FrameError::TooLarge { length: frame_length(item.payload@) },
            ),
    {
        let payload_len = item.payload.len();
        if payload_len >= MAX {
            return Err(FrameError::TooLarge { length: payload_len.saturating_add(1) });
        }
        let len = payload_len + 1;
        let prefix = u32_to_be(len as u32);
        dst.reserve(4 + len);
        dst.extend_from_slice(prefix.as_slice());
        put_byte(dst, item.tag.repr());
        dst.extend_from_slice(item.payload.as_slice());
        proof {
            assert(buffered(*dst) =~= buffered(*old(dst)) + frame_bytes(item.tag, item.payload@));
        }
        Ok(())
    }
}

} // verus!
