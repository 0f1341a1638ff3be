//! Laws of the frame codec, stated over `frame_decode` and `frame_bytes`.

use crate::message::{
    frame_bytes, frame_decode, tag_byte, tag_of, without_keepalives, Decoded, MessageTag, MAX,
};
use crate::wire::{be32_at, be32_bytes, lemma_be32_of_bytes};
use vstd::prelude::*;

verus! {

/// The header of a frame reads back as the frame's length, which is never zero.
proof fn lemma_frame_header(tag: MessageTag, payload: Seq<u8>)
    requires
        payload.len() + 1 <= MAX,
    ensures
        frame_bytes(tag, payload).len() == payload.len() + 5,
        be32_at(frame_bytes(tag, payload), 0) == payload.len() + 1,
        frame_bytes(tag, payload)[4] == tag_byte(tag),
        frame_bytes(tag, payload).subrange(5, payload.len() as int + 5) == payload,
        tag_of(tag_byte(tag)) == Some(tag),
{
    let len = (payload.len() + 1) as u32;
    lemma_be32_of_bytes(len);
    let f = frame_bytes(tag, payload);
    assert(f[0] == be32_bytes(len)[0]);
    assert(f[1] == be32_bytes(len)[1]);
    assert(f[2] == be32_bytes(len)[2]);
    assert(f[3] == be32_bytes(len)[3]);
    assert(f.subrange(5, payload.len() as int + 5) =~= payload);
}

/// Decoding what was encoded gives the message back and leaves exactly the
/// bytes that followed the frame.
pub proof fn lemma_frame_round_trip(tag: MessageTag, payload: Seq<u8>, rest: Seq<u8>)
    requires
        payload.len() + 1 <= MAX,
    ensures
        frame_decode(frame_bytes(tag, payload) + rest) == (
            Decoded::Frame { length: (payload.len() + 1) as u32, tag, payload },
            rest,
        ),
{
    lemma_frame_header(tag, payload);
    let f = frame_bytes(tag, payload);
    let s = f + rest;
    assert(s[0] == f[0] && s[1] == f[1] && s[2] == f[2] && s[3] == f[3] && s[4] == f[4]);
    assert(without_keepalives(s) == s);
    assert(s.subrange(5, payload.len() as int + 5) =~= payload);
    assert(s.skip(payload.len() as int + 5) =~= rest);
}

/// Decoding is incremental: every proper prefix of a frame is incomplete and
/// stays buffered as it is. With `lemma_frame_round_trip` for the whole frame,
/// bytes fed one at a time give nothing until the last and then the message.
pub proof fn lemma_frame_incremental(tag: MessageTag, payload: Seq<u8>, k: int)
    requires
        payload.len() + 1 <= MAX,
        0 <= k < frame_bytes(tag, payload).len(),
    ensures
        frame_decode(frame_bytes(tag, payload).take(k)) == (
            Decoded::Incomplete,
            frame_bytes(tag, payload).take(k),
        ),
{
    lemma_frame_header(tag, payload);
    let f = frame_bytes(tag, payload);
    let p = f.take(k);
    if k >= 4 {
        assert(p[0] == f[0] && p[1] == f[1] && p[2] == f[2] && p[3] == f[3]);
    }
    assert(without_keepalives(p) == p);
}

/// A frame whose bytes are fed one at a time gives nothing, and loses
/// nothing, until its last byte is in; with the last byte it gives its
/// message, once, and the buffer is empty.
pub proof fn lemma_frame_fed_byte_by_byte(tag: MessageTag, payload: Seq<u8>)
    requires
        payload.len() + 1 <= MAX,
    ensures
        forall|k: int|
            0 <= k < frame_bytes(tag, payload).len() ==> #[trigger] frame_decode(
                frame_bytes(tag, payload).take(k),
            ) == (Decoded::Incomplete, frame_bytes(tag, payload).take(k)),
        frame_decode(frame_bytes(tag, payload)) == (
            Decoded::Frame { length: (payload.len() + 1) as u32, tag, payload },
            Seq::<u8>::empty(),
        ),
        frame_decode(Seq::<u8>::empty()) == (Decoded::Incomplete, Seq::<u8>::empty()),
{
    let frame = frame_bytes(tag, payload);
    assert forall|k: int| 0 <= k < frame.len() implies #[trigger] frame_decode(frame.take(k)) == (
        Decoded::Incomplete,
        frame.take(k),
    ) by {
        lemma_frame_incremental(tag, payload, k);
    }
    lemma_frame_round_trip(tag, payload, Seq::empty());
    assert(frame + Seq::<u8>::empty() =~= frame);
}

/// A keep-alive at the head of the stream is consumed and changes nothing
/// else: what follows decodes as if the keep-alive had not been there.
pub proof fn lemma_keepalive_skipped(s: Seq<u8>)
    ensures
        frame_decode(seq![0u8, 0u8, 0u8, 0u8] + s) == frame_decode(s),
{
    let k = seq![0u8, 0u8, 0u8, 0u8] + s;
    assert(k.skip(4) =~= s);
    assert(be32_at(k, 0) == 0);
    assert(without_keepalives(k) == without_keepalives(s));
}

/// A header that declares more than `MAX` bytes is refused as soon as its four
/// bytes are there, and the stream stays as it is.
pub proof fn lemma_frame_ceiling(s: Seq<u8>)
    requires
        s.len() >= 4,
        be32_at(s, 0) > MAX,
    ensures
        frame_decode(s) == (Decoded::TooLarge { length: be32_at(s, 0) as usize }, s),
{
    assert(without_keepalives(s) == s);
}

/// Once the keep-alives at the head are taken off, none is left there: in
/// what stays buffered after an incomplete or refused decoding, the next
/// decoding finds no keep-alive to skip.
pub proof fn lemma_keepalives_gone(s: Seq<u8>)
    ensures
        without_keepalives(without_keepalives(s)) == without_keepalives(s),
    decreases s.len(),
{
    if s.len() >= 4 && be32_at(s, 0) == 0 {
        lemma_keepalives_gone(s.skip(4));
    }
}

} // verus!
