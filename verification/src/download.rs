//! The download of one piece from one peer.
//!
//! The conversation is fixed: the peer sends its bitfield, this side says it
//! is interested, the peer unchokes, and then each block is requested and
//! received in turn. When the last block is in, the piece is checked against
//! its digest. The engine never waits and never sends: it is told what
//! arrived and answers with what to do next.

use crate::hash::{sha1_digest, sha1_of};
use crate::message::{Message, MessageTag};
use crate::net::{request_bytes, Piece, Request, RequestFields};
use crate::wire::{be32_at, bytes_equal};
use vstd::prelude::*;
use vstd::slice::slice_to_vec;

verus! {

/// The largest block that is asked for: 16 KiB.
pub const BLOCK_MAX: usize = 16384;

/// Why a download ended without a piece.
#[allow(inconsistent_fields)]
#[derive(Debug, Clone, Copy, PartialEq, Eq, Structural)]
pub enum DownloadError {
    /// The peer sent another kind of message than the one that was due.
    UnexpectedMessage { expected: MessageTag, found: MessageTag },
    /// The message is of the kind that was due, but its payload is not: an
    /// unchoke that carries bytes, or a piece without its header.
    UnexpectedPayload,
    /// The peer sent a block other than the one that was asked for.
    WrongBlock { index: u32, begin: u32 },
    /// The blocks do not add up to the length of the piece.
    SizeMismatch { expected: usize, found: usize },
    /// The piece does not have the digest that the metainfo gives for it.
    HashVerificationFailure,
    /// A message arrived after the download had ended.
    Finished,
}

/// Where a download stands.
#[derive(Debug, Clone, Copy, PartialEq, Eq, Structural)]
pub enum Stage {
    AwaitBitfield,
    AwaitUnchoke,
    AwaitBlock { block: usize },
    Done,
    Failed,
}

/// What to do after a message was taken in.
#[derive(Debug, Clone)]
pub enum Step {
    /// Send this message, then hand in the peer's next one.
    Send(Message),
    /// The piece is whole and has the right digest: these are its bytes.
    Complete(Vec<u8>),
}

/// What a step comes to, as mathematics sees it.
pub enum Outcome {
    Send { tag: MessageTag, payload: Seq<u8> },
    Complete { piece: Seq<u8> },
    Fail { error: DownloadError },
}

/// A download as mathematics sees it.
pub struct DownloadModel {
    pub piece_index: u32,
    pub piece_length: usize,
    pub expected: Seq<u8>,
    pub stage: Stage,
    pub buffer: Seq<u8>,
}

/// The number of blocks in a piece of `piece_length` bytes.
pub open spec fn block_count(piece_length: int) -> int {
    (piece_length + BLOCK_MAX - 1) / (BLOCK_MAX as int)
}

/// The length of a block: `BLOCK_MAX` for every block but the last, and for
/// the last what is left of the piece, which is a full block where the
/// piece divides evenly.
pub open spec fn block_size(piece_length: int, block: int) -> int {
    if block == block_count(piece_length) - 1 {
        piece_length - block * BLOCK_MAX
    } else {
        BLOCK_MAX as int
    }
}

/// The payload of the request for a block.
pub open spec fn block_request(piece_index: u32, piece_length: int, block: int) -> Seq<u8> {
    request_bytes(
        RequestFields {
            index: piece_index,
            begin: (block * BLOCK_MAX) as u32,
            length: block_size(piece_length, block) as u32,
        },
    )
}

/// Whether the assembled bytes are the piece: they have to be as long as the
/// piece, and `digest`, their digest, has to be the expected one.
pub open spec fn verdict(
    buffer: Seq<u8>,
    piece_length: usize,
    digest: Seq<u8>,
    expected: Seq<u8>,
) -> Result<Seq<u8>, DownloadError> {
    if buffer.len() != piece_length {
        Err(DownloadError::SizeMismatch { expected: piece_length, found: buffer.len() as usize })
    } else if digest != expected {
        Err(DownloadError::HashVerificationFailure)
    } else {
        Ok(buffer)
    }
}

/// The download with its stage set to failed and its buffer emptied.
pub open spec fn failed(m: DownloadModel, error: DownloadError) -> (DownloadModel, Outcome) {
    (DownloadModel { stage: Stage::Failed, buffer: Seq::empty(), ..m }, Outcome::Fail { error })
}

/// The end of a download whose last block has come in: the bytes are handed
/// out where they are the piece, and thrown away where they are not.
pub open spec fn finish(m: DownloadModel, buffer: Seq<u8>) -> (DownloadModel, Outcome) {
    match verdict(buffer, m.piece_length, sha1_digest(buffer), m.expected) {
        Ok(piece) => (
            DownloadModel { stage: Stage::Done, buffer: Seq::empty(), ..m },
            Outcome::Complete { piece },
        ),
        Err(error) => failed(m, error),
    }
}

/// What a message does to a download, and what is to be done next.
///
/// Any message but the one that is due ends the download.
pub open spec fn step(m: DownloadModel, tag: MessageTag, payload: Seq<u8>) -> (
    DownloadModel,
    Outcome,
) {
    match m.stage {
        Stage::AwaitBitfield => if tag != MessageTag::Bitfield {
            failed(
                m,
                DownloadError::UnexpectedMessage { expected: MessageTag::Bitfield, found: tag },
            )
        } else {
            (
                DownloadModel { stage: Stage::AwaitUnchoke, ..m },
                Outcome::Send { tag: MessageTag::Interested, payload: Seq::empty() },
            )
        },
        Stage::AwaitUnchoke => if tag != MessageTag::Unchoke {
            failed(
                m,
                DownloadError::UnexpectedMessage { expected: MessageTag::Unchoke, found: tag },
            )
        } else if payload.len() != 0 {
            failed(m, DownloadError::UnexpectedPayload)
        } else if block_count(m.piece_length as int) == 0 {
            finish(m, m.buffer)
        } else {
            (
                DownloadModel { stage: Stage::AwaitBlock { block: 0 }, ..m },
                Outcome::Send {
                    tag: MessageTag::Request,
                    payload: block_request(m.piece_index, m.piece_length as int, 0),
                },
            )
        },
        Stage::AwaitBlock { block } => if tag != MessageTag::Piece {
            failed(m, DownloadError::UnexpectedMessage { expected: MessageTag::Piece, found: tag })
        } else if payload.len() < 8 {
            failed(m, DownloadError::UnexpectedPayload)
        } else if be32_at(payload, 0) != m.piece_index || be32_at(payload, 4) != block
            * BLOCK_MAX {
            failed(
                m,
                DownloadError::WrongBlock {
                    index: be32_at(payload, 0) as u32,
                    begin: be32_at(payload, 4) as u32,
                },
            )
        } else if block + 1 < block_count(m.piece_length as int) {
            (
                DownloadModel {
                    stage: Stage::AwaitBlock { block: (block + 1) as usize },
                    buffer: m.buffer + payload.skip(8),
                    ..m
                },
                Outcome::Send {
                    tag: MessageTag::Request,
                    payload: block_request(m.piece_index, m.piece_length as int, block + 1),
                },
            )
        } else {
            finish(m, m.buffer + payload.skip(8))
        },
        Stage::Done => (m, Outcome::Fail { error: DownloadError::Finished }),
        Stage::Failed => (m, Outcome::Fail { error: DownloadError::Finished }),
    }
}

/// What a result of `PieceDownload::on_message` says, as an `Outcome`.
pub open spec fn outcome(r: Result<Step, DownloadError>) -> Outcome {
    match r {
        Ok(Step::Send(message)) => Outcome::Send { tag: message.tag, payload: message.payload@ },
        Ok(Step::Complete(piece)) => Outcome::Complete { piece: piece@ },
        Err(error) => Outcome::Fail { error },
    }
}

/// The number of blocks in a piece of `piece_length` bytes.
pub fn nblocks(piece_length: usize) -> (count: usize)
    ensures
        count == block_count(piece_length as int),
{
    if piece_length % BLOCK_MAX == 0 {
        piece_length / BLOCK_MAX
    } else {
        piece_length / BLOCK_MAX + 1
    }
}

/// The length of the block with this number.
pub fn block_length(piece_length: usize, block: usize) -> (length: usize)
    requires
        block < block_count(piece_length as int),
    ensures
        length == block_size(piece_length as int, block as int),
        0 < length <= BLOCK_MAX,
        block * BLOCK_MAX + length <= piece_length,
{
    if block == nblocks(piece_length) - 1 {
        piece_length - block * BLOCK_MAX
    } else {
        BLOCK_MAX
    }
}

/// Every block of a piece begins inside the piece.
pub proof fn lemma_block_begins_inside(piece_length: int, block: int)
    requires
        0 <= piece_length,
        0 <= block < block_count(piece_length),
    ensures
        block * BLOCK_MAX < piece_length,
{
}

/// Decides whether the assembled bytes are the piece, given their digest.
///
/// The bytes are handed back only where they are as long as the piece and
/// their digest is the expected one.
pub fn conclude(buffer: Vec<u8>, piece_length: usize, digest: &[u8; 20], expected: &[u8; 20]) -> (r:
    Result<Vec<u8>, DownloadError>)
    ensures
        match r {
            Ok(piece) => verdict(buffer@, piece_length, digest@, expected@) == Ok::<
                Seq<u8>,
                DownloadError,
            >(piece@),
            Err(error) => verdict(buffer@, piece_length, digest@, expected@) == Err::<
                Seq<u8>,
                DownloadError,
            >(error),
        },
{
    if buffer.len() != piece_length {
        return Err(DownloadError::SizeMismatch { expected: piece_length, found: buffer.len() });
    }
    if !bytes_equal(digest.as_slice(), expected.as_slice()) {
        return Err(DownloadError::HashVerificationFailure);
    }
    Ok(buffer)
}

/// Checks assembled bytes against the digest that is expected of them.
pub fn verify_piece(buffer: Vec<u8>, piece_length: usize, expected: &[u8; 20]) -> (r: Result<
    Vec<u8>,
    DownloadError,
>)
    ensures
        match r {
            Ok(piece) => verdict(buffer@, piece_length, sha1_digest(buffer@), expected@) == Ok::<
                Seq<u8>,
                DownloadError,
            >(piece@),
            Err(error) => verdict(buffer@, piece_length, sha1_digest(buffer@), expected@) == Err::<
                Seq<u8>,
                DownloadError,
            >(error),
        },
{
    let digest = sha1_of(buffer.as_slice());
    conclude(buffer, piece_length, &digest, expected)
}

/// The state of the download of one piece.
#[derive(Debug)]
pub struct PieceDownload {
    piece_index: u32,
    piece_length: usize,
    expected: [u8; 20],
    stage: Stage,
    buffer: Vec<u8>,
}

impl View for PieceDownload {
    type V = DownloadModel;

    closed spec fn view(&self) -> DownloadModel {
        DownloadModel {
            piece_index: self.piece_index,
            piece_length: self.piece_length,
            expected: self.expected@,
            stage: self.stage,
            buffer: self.buffer@,
        }
    }
}

/// What holds of a download at every moment: its lengths fit the 32 bits
/// that the wire gives them, and a block that is awaited is one of the piece.
pub open spec fn download_well_formed(m: DownloadModel) -> bool {
    &&& m.piece_length <= u32::MAX
    &&& m.expected.len() == 20
    &&& m.stage matches Stage::AwaitBlock { block } ==> block < block_count(m.piece_length as int)
}

impl PieceDownload {
    /// What holds of a download at every moment.
    pub open spec fn well_formed(&self) -> bool {
        download_well_formed(self@)
    }

    /// A download that waits for the peer's bitfield. `None` for a piece
    /// whose length does not fit the 32 bits of a request.
    pub fn new(piece_index: u32, piece_length: usize, expected: [u8; 20]) -> (r: Option<Self>)
        ensures
            r is Some <==> piece_length <= u32::MAX,
            r matches Some(download) ==> download.well_formed() && download@ == (DownloadModel {
                piece_index,
                piece_length,
                expected: expected@,
                stage: Stage::AwaitBitfield,
                buffer: Seq::empty(),
            }),
    {
        if piece_length > u32::MAX as usize {
            return None;
        }
        // Room for the whole piece, where the allocator grants it.
        let mut buffer: Vec<u8> = Vec::new();
        let _ = buffer.try_reserve(piece_length);
        Some(
            PieceDownload { piece_index, piece_length, expected, stage: Stage::AwaitBitfield, buffer },
        )
    }

    /// Where the download stands.
    pub fn stage(&self) -> (stage: Stage)
        ensures
            stage == self@.stage,
    {
        self.stage
    }

    /// How many bytes of the piece are in.
    pub fn received(&self) -> (n: usize)
        ensures
            n == self@.buffer.len(),
    {
        self.buffer.len()
    }

    /// The message that asks for the block with this number.
    fn request(&self, block: usize) -> (message: Message)
        requires
            self.well_formed(),
            block < block_count(self@.piece_length as int),
        ensures
            message.tag == MessageTag::Request,
            message.payload@ == block_request(
                self@.piece_index,
                self@.piece_length as int,
                block as int,
            ),
            message.well_formed(),
    {
        let length = block_length(self.piece_length, block);
        let request = Request::new(self.piece_index, (block * BLOCK_MAX) as u32, length as u32);
        let bytes = request.to_bytes();
        Message::new(MessageTag::Request, slice_to_vec(bytes.as_slice()))
    }

    /// Ends the download with an error: the bytes that are in are thrown away.
    fn fail(&mut self, error: DownloadError) -> (r: Result<Step, DownloadError>)
        requires
            old(self).well_formed(),
        ensures
            final(self).well_formed(),
            (final(self)@, outcome(r)) == failed(old(self)@, error),
    {
        self.stage = Stage::Failed;
        self.buffer = Vec::new();
        Err(error)
    }

    /// Ends the download after the last block: the bytes that are in are
    /// checked and handed out, or thrown away.
    fn finish(&mut self) -> (r: Result<Step, DownloadError>)
        requires
            old(self).well_formed(),
        ensures
            final(self).well_formed(),
            (final(self)@, outcome(r)) == finish(old(self)@, old(self)@.buffer),
    {
        let mut assembled: Vec<u8> = Vec::new();
        core::mem::swap(&mut self.buffer, &mut assembled);
        match verify_piece(assembled, self.piece_length, &self.expected) {
            Ok(piece) => {
                self.stage = Stage::Done;
                Ok(Step::Complete(piece))
            },
            Err(error) => {
                self.stage = Stage::Failed;
                Err(error)
            },
        }
    }

    /// The step to take while the bitfield is awaited.
    fn on_bitfield(&mut self, message: &Message) -> (r: Result<Step, DownloadError>)
        requires
            old(self).well_formed(),
            old(self)@.stage is AwaitBitfield,
        ensures
            final(self).well_formed(),
            (final(self)@, outcome(r)) == step(old(self)@, message.tag, message.payload@),
            r matches Ok(Step::Send(reply)) ==> reply.well_formed(),
    {
        if message.tag != MessageTag::Bitfield {
            return self.fail(
                DownloadError::UnexpectedMessage {
                    expected: MessageTag::Bitfield,
                    found: message.tag,
                },
            );
        }
        self.stage = Stage::AwaitUnchoke;
        Ok(Step::Send(Message::new(MessageTag::Interested, Vec::new())))
    }

    /// The step to take while the unchoke is awaited.
    fn on_unchoke(&mut self, message: &Message) -> (r: Result<Step, DownloadError>)
        requires
            old(self).well_formed(),
            old(self)@.stage is AwaitUnchoke,
        ensures
            final(self).well_formed(),
            (final(self)@, outcome(r)) == step(old(self)@, message.tag, message.payload@),
            r matches Ok(Step::Send(reply)) ==> reply.well_formed(),
    {
        if message.tag != MessageTag::Unchoke {
            return self.fail(
                DownloadError::UnexpectedMessage {
                    expected: MessageTag::Unchoke,
                    found: message.tag,
                },
            );
        }
        if message.payload.len() != 0 {
            return self.fail(DownloadError::UnexpectedPayload);
        }
        if nblocks(self.piece_length) == 0 {
            return self.finish();
        }
        let request = self.request(0);
        self.stage = Stage::AwaitBlock { block: 0 };
        Ok(Step::Send(request))
    }

    /// The step to take while the block with this number is awaited.
    fn on_block(&mut self, block: usize, message: &Message) -> (r: Result<Step, DownloadError>)
        requires
            old(self).well_formed(),
            old(self)@.stage == (Stage::AwaitBlock { block }),
        ensures
            final(self).well_formed(),
            (final(self)@, outcome(r)) == step(old(self)@, message.tag, message.payload@),
            r matches Ok(Step::Send(reply)) ==> reply.well_formed(),
    {
        if message.tag != MessageTag::Piece {
            return self.fail(
                DownloadError::UnexpectedMessage {
                    expected: MessageTag::Piece,
                    found: message.tag,
                },
            );
        }
        let piece = match Piece::from_payload(message.payload.as_slice()) {
            Some(piece) => piece,
            None => {
                return self.fail(DownloadError::UnexpectedPayload);
            },
        };
        proof {
            lemma_block_begins_inside(self.piece_length as int, block as int);
        }
        let begin: usize = block * BLOCK_MAX;
        if piece.index() != self.piece_index || piece.begin() as usize != begin {
            return self.fail(
                DownloadError::WrongBlock { index: piece.index(), begin: piece.begin() },
            );
        }
        self.accept_block(block, piece.block())
    }

    /// Puts the bytes of the awaited block behind those that are in, and
    /// asks for the next block or ends the download.
    fn accept_block(&mut self, block: usize, bytes: &[u8]) -> (r: Result<Step, DownloadError>)
        requires
            old(self).well_formed(),
            old(self)@.stage == (Stage::AwaitBlock { block }),
        ensures
            final(self).well_formed(),
            (final(self)@, outcome(r)) == (if block + 1 < block_count(
                old(self)@.piece_length as int,
            ) {
                (
                    DownloadModel {
                        stage: Stage::AwaitBlock { block: (block + 1) as usize },
                        buffer: old(self)@.buffer + bytes@,
                        ..old(self)@
                    },
                    Outcome::Send {
                        tag: MessageTag::Request,
                        payload: block_request(
                            old(self)@.piece_index,
                            old(self)@.piece_length as int,
                            block + 1,
                        ),
                    },
                )
            } else {
                finish(old(self)@, old(self)@.buffer + bytes@)
            }),
            r matches Ok(Step::Send(reply)) ==> reply.well_formed(),
    {
        let ghost before = self@;
        self.buffer.extend_from_slice(bytes);
        let ghost grown = self@;
        if block + 1 < nblocks(self.piece_length) {
            let request = self.request(block + 1);
            self.stage = Stage::AwaitBlock { block: block + 1 };
            let r = Ok(Step::Send(request));
            proof {
                assert(self@.piece_index == before.piece_index);
                assert(self@.piece_length == before.piece_length);
                assert(self@.expected == before.expected);
                assert(self@.buffer == before.buffer + bytes@);
                assert(self@.stage == Stage::AwaitBlock { block: (block + 1) as usize });
                assert(self@ == (DownloadModel {
                    stage: Stage::AwaitBlock { block: (block + 1) as usize },
                    buffer: before.buffer + bytes@,
                    ..before
                }));
                assert(outcome(r) == (Outcome::Send {
                    tag: MessageTag::Request,
                    payload: block_request(
                        before.piece_index,
                        before.piece_length as int,
                        block + 1,
                    ),
                }));
            }
            r
        } else {
            let r = self.finish();
            proof {
                assert(grown.buffer == before.buffer + bytes@);
                assert(finish(grown, grown.buffer) == finish(before, grown.buffer));
            }
            r
        }
    }

    /// Takes in the peer's next message and says what to do next.
    ///
    /// The answer is the message to send, or the finished piece, or the
    /// error that ended the download. `step` says which, for every state and
    /// every message.
    pub fn on_message(&mut self, message: &Message) -> (r: Result<Step, DownloadError>)
        requires
            old(self).well_formed(),
        ensures
            final(self).well_formed(),
            (final(self)@, outcome(r)) == step(old(self)@, message.tag, message.payload@),
            r matches Ok(Step::Send(reply)) ==> reply.well_formed(),
    {
        match self.stage {
            Stage::AwaitBitfield => self.on_bitfield(message),
            Stage::AwaitUnchoke => self.on_unchoke(message),
            Stage::AwaitBlock { block } => self.on_block(block, message),
            Stage::Done => Err(DownloadError::Finished),
            Stage::Failed => Err(DownloadError::Finished),
        }
    }
}

} // verus!
