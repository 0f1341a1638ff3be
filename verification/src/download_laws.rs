//! Laws of the download engine, stated over `step`: a peer that keeps to the
//! conversation gets the piece across, and nothing but the piece is ever
//! handed out.

use crate::download::{
    block_count, block_request, block_size, download_well_formed, failed, finish, step,
    DownloadError, DownloadModel, Outcome, Stage, BLOCK_MAX,
};
use crate::hash::sha1_digest;
use crate::message::MessageTag;
use crate::wire::{be32_at, be32_bytes, lemma_be32_of_bytes};
use vstd::prelude::*;

verus! {

/// The payload of the `Piece` message that carries `block` for the place
/// `begin` of the piece `index`.
pub open spec fn piece_payload(index: u32, begin: u32, block: Seq<u8>) -> Seq<u8> {
    be32_bytes(index) + be32_bytes(begin) + block
}

/// The bytes of `data` that make up the block with this number.
pub open spec fn block_of(data: Seq<u8>, block: int) -> Seq<u8> {
    data.subrange(block * BLOCK_MAX, block * BLOCK_MAX + block_size(data.len() as int, block))
}

/// The download of `data` at the moment at which the block with this
/// number is awaited: all blocks before it are in.
pub open spec fn awaiting(start: DownloadModel, data: Seq<u8>, block: int) -> DownloadModel {
    DownloadModel {
        stage: Stage::AwaitBlock { block: block as usize },
        buffer: data.take(block * BLOCK_MAX),
        ..start
    }
}

/// The header of a piece message reads back as the piece and the place.
proof fn lemma_piece_payload(index: u32, begin: u32, block: Seq<u8>)
    ensures
        piece_payload(index, begin, block).len() == 8 + block.len(),
        be32_at(piece_payload(index, begin, block), 0) == index,
        be32_at(piece_payload(index, begin, block), 4) == begin,
        piece_payload(index, begin, block).skip(8) == block,
{
    lemma_be32_of_bytes(index);
    lemma_be32_of_bytes(begin);
    let p = piece_payload(index, begin, block);
    let i = be32_bytes(index);
    let b = be32_bytes(begin);
    assert(p[0] == i[0] && p[1] == i[1] && p[2] == i[2] && p[3] == i[3]);
    assert(p[4] == b[0] && p[5] == b[1] && p[6] == b[2] && p[7] == b[3]);
    assert(p.skip(8) =~= block);
}

/// Where the blocks of a piece begin and end.
proof fn lemma_block_bounds(length: int, block: int)
    requires
        0 <= length,
        0 <= block < block_count(length),
    ensures
        0 <= block * BLOCK_MAX < length,
        0 < block_size(length, block) <= BLOCK_MAX,
        block * BLOCK_MAX + block_size(length, block) <= length,
        block + 1 < block_count(length) ==> block * BLOCK_MAX + block_size(length, block) == (block
            + 1) * BLOCK_MAX,
        block + 1 == block_count(length) ==> block * BLOCK_MAX + block_size(length, block)
            == length,
{
}

/// The opening of the conversation: after the bitfield this side says it is
/// interested, and after the unchoke it asks for the first block.
pub proof fn lemma_download_opens(start: DownloadModel, bitfield: Seq<u8>, data: Seq<u8>)
    requires
        download_well_formed(start),
        start.stage == Stage::AwaitBitfield,
        start.buffer == Seq::<u8>::empty(),
        start.piece_length == data.len(),
        data.len() > 0,
    ensures
        step(start, MessageTag::Bitfield, bitfield) == (
            DownloadModel { stage: Stage::AwaitUnchoke, ..start },
            Outcome::Send { tag: MessageTag::Interested, payload: Seq::empty() },
        ),
        step(
            DownloadModel { stage: Stage::AwaitUnchoke, ..start },
            MessageTag::Unchoke,
            Seq::empty(),
        ) == (
            awaiting(start, data, 0),
            Outcome::Send {
                tag: MessageTag::Request,
                payload: block_request(start.piece_index, data.len() as int, 0),
            },
        ),
{
    assert(data.take(0) =~= Seq::<u8>::empty());
    assert(block_count(data.len() as int) > 0);
}

/// A block that is not the last: once it is in, the next one is asked for.
pub proof fn lemma_block_taken(start: DownloadModel, data: Seq<u8>, block: int)
    requires
        download_well_formed(start),
        start.piece_length == data.len(),
        0 <= block,
        block + 1 < block_count(data.len() as int),
    ensures
        step(
            awaiting(start, data, block),
            MessageTag::Piece,
            piece_payload(start.piece_index, (block * BLOCK_MAX) as u32, block_of(data, block)),
        ) == (
            awaiting(start, data, block + 1),
            Outcome::Send {
                tag: MessageTag::Request,
                payload: block_request(start.piece_index, data.len() as int, block + 1),
            },
        ),
{
    lemma_block_bounds(data.len() as int, block);
    let begin = (block * BLOCK_MAX) as u32;
    lemma_piece_payload(start.piece_index, begin, block_of(data, block));
    assert(data.take(block * BLOCK_MAX) + block_of(data, block) =~= data.take(
        (block + 1) * BLOCK_MAX,
    ));
}

/// The last block: once it is in, the piece is handed out where its digest
/// is the expected one, and the download fails where it is not.
pub proof fn lemma_last_block_taken(start: DownloadModel, data: Seq<u8>, block: int)
    requires
        download_well_formed(start),
        start.piece_length == data.len(),
        0 <= block,
        block + 1 == block_count(data.len() as int),
    ensures
        step(
            awaiting(start, data, block),
            MessageTag::Piece,
            piece_payload(start.piece_index, (block * BLOCK_MAX) as u32, block_of(data, block)),
        ) == (if sha1_digest(data) == start.expected {
            (
                DownloadModel { stage: Stage::Done, buffer: Seq::empty(), ..start },
                Outcome::Complete { piece: data },
            )
        } else {
            failed(start, DownloadError::HashVerificationFailure)
        }),
{
    lemma_block_bounds(data.len() as int, block);
    let begin = (block * BLOCK_MAX) as u32;
    lemma_piece_payload(start.piece_index, begin, block_of(data, block));
    assert(data.take(block * BLOCK_MAX) + block_of(data, block) =~= data);
    let m = awaiting(start, data, block);
    assert(finish(m, data) == finish(start, data));
}

/// Nothing but the piece is handed out: whatever the state and whatever the
/// message, bytes that a step hands out are as long as the piece and have
/// the expected digest.
pub proof fn lemma_only_the_piece_is_handed_out(m: DownloadModel, tag: MessageTag, payload: Seq<u8>)
    ensures
        step(m, tag, payload).1 matches Outcome::Complete { piece } ==> piece.len()
            == m.piece_length && sha1_digest(piece) == m.expected,
{
}

} // verus!
