use bittorrent_core::download::{
    block_length, conclude, nblocks, verify_piece, DownloadError, PieceDownload, Stage, Step,
    BLOCK_MAX,
};
use bittorrent_core::message::{Message, MessageTag};
use bittorrent_core::net::Request;
use sha1::{Digest, Sha1};

fn sha1(bytes: &[u8]) -> [u8; 20] {
    Sha1::digest(bytes).into()
}

fn piece_message(index: u32, begin: u32, block: &[u8]) -> Message {
    let mut payload = index.to_be_bytes().to_vec();
    payload.extend_from_slice(&begin.to_be_bytes());
    payload.extend_from_slice(block);
    Message::new(MessageTag::Piece, payload)
}

fn sent(step: Result<Step, DownloadError>) -> Message {
    match step {
        Ok(Step::Send(message)) => message,
        other => panic!("a message to send was due, not {:?}", other),
    }
}

fn content(length: usize) -> Vec<u8> {
    (0..length).map(|i| (i * 31 % 251) as u8).collect()
}

#[test]
fn block_counts() {
    assert_eq!(BLOCK_MAX, 16384);
    assert_eq!(nblocks(0), 0);
    assert_eq!(nblocks(1), 1);
    assert_eq!(nblocks(16383), 1);
    assert_eq!(nblocks(16384), 1);
    assert_eq!(nblocks(16385), 2);
    assert_eq!(nblocks(262144), 16);
    assert_eq!(nblocks(usize::MAX), usize::MAX / 16384 + 1);
}

#[test]
fn block_lengths() {
    assert_eq!(block_length(262144, 0), 16384);
    assert_eq!(block_length(262144, 15), 16384);
    assert_eq!(block_length(16385, 0), 16384);
    assert_eq!(block_length(16385, 1), 1);
    assert_eq!(block_length(26527, 1), 10143);
    assert_eq!(block_length(1, 0), 1);
    assert_eq!(block_length(16384, 0), 16384);
}

#[test]
fn sha1_of_a_known_text() {
    let expected: [u8; 20] = hex::decode("2aae6c35c94fcfb415dbe95f408b9ce91ee846ed")
        .unwrap()
        .try_into()
        .unwrap();
    assert_eq!(verify_piece(b"hello world".to_vec(), 11, &expected), Ok(b"hello world".to_vec()));
    let empty: [u8; 20] = hex::decode("da39a3ee5e6b4b0d3255bfef95601890afd80709")
        .unwrap()
        .try_into()
        .unwrap();
    assert_eq!(verify_piece(Vec::new(), 0, &empty), Ok(Vec::new()));
}

#[test]
fn hash_mismatch_is_a_failure_and_gives_no_bytes() {
    let mut expected = sha1(b"hello world");
    expected[0] ^= 1;
    assert_eq!(
        verify_piece(b"hello world".to_vec(), 11, &expected),
        Err(DownloadError::HashVerificationFailure)
    );
    assert_eq!(
        verify_piece(b"hello world".to_vec(), 11, &sha1(b"hello worle")),
        Err(DownloadError::HashVerificationFailure)
    );
}

#[test]
fn size_mismatch_comes_before_the_digest() {
    assert_eq!(
        verify_piece(b"hello".to_vec(), 6, &sha1(b"hello")),
        Err(DownloadError::SizeMismatch { expected: 6, found: 5 })
    );
    assert_eq!(
        verify_piece(b"hello".to_vec(), 4, &[0; 20]),
        Err(DownloadError::SizeMismatch { expected: 4, found: 5 })
    );
}

#[test]
fn conclude_goes_by_the_digest_it_is_given() {
    assert_eq!(conclude(vec![1, 2], 2, &[5; 20], &[5; 20]), Ok(vec![1, 2]));
    assert_eq!(conclude(vec![1, 2], 2, &[5; 20], &[6; 20]), Err(DownloadError::HashVerificationFailure));
    assert_eq!(
        conclude(vec![1, 2], 3, &[5; 20], &[5; 20]),
        Err(DownloadError::SizeMismatch { expected: 3, found: 2 })
    );
}

#[test]
fn a_whole_conversation() {
    let data = content(40000);
    let mut download = PieceDownload::new(3, data.len(), sha1(&data)).unwrap();
    assert_eq!(download.stage(), Stage::AwaitBitfield);
    assert_eq!(download.received(), 0);

    let interested = sent(download.on_message(&Message::new(MessageTag::Bitfield, vec![0xff, 0xf0])));
    assert_eq!(interested.tag, MessageTag::Interested);
    assert!(interested.payload.is_empty());
    assert_eq!(interested.length, 1);
    assert_eq!(download.stage(), Stage::AwaitUnchoke);

    let request = sent(download.on_message(&Message::new(MessageTag::Unchoke, Vec::new())));
    assert_eq!(request.tag, MessageTag::Request);
    assert_eq!(request.length, 13);
    assert_eq!(request.payload, Request::new(3, 0, 16384).to_bytes().to_vec());
    assert_eq!(download.stage(), Stage::AwaitBlock { block: 0 });

    let request = sent(download.on_message(&piece_message(3, 0, &data[..16384])));
    assert_eq!(request.payload, Request::new(3, 16384, 16384).to_bytes().to_vec());
    assert_eq!(download.stage(), Stage::AwaitBlock { block: 1 });
    assert_eq!(download.received(), 16384);

    let request = sent(download.on_message(&piece_message(3, 16384, &data[16384..32768])));
    assert_eq!(request.payload, Request::new(3, 32768, 7232).to_bytes().to_vec());
    assert_eq!(download.stage(), Stage::AwaitBlock { block: 2 });

    match download.on_message(&piece_message(3, 32768, &data[32768..])) {
        Ok(Step::Complete(piece)) => assert_eq!(piece, data),
        other => panic!("the piece was due, not {:?}", other),
    }
    assert_eq!(download.stage(), Stage::Done);
    assert_eq!(download.received(), 0);
    assert_eq!(
        download.on_message(&Message::new(MessageTag::Choke, Vec::new())).unwrap_err(),
        DownloadError::Finished
    );
    assert_eq!(download.stage(), Stage::Done);
}

#[test]
fn a_piece_of_exactly_one_block() {
    let data = content(16384);
    let mut download = PieceDownload::new(0, data.len(), sha1(&data)).unwrap();
    sent(download.on_message(&Message::new(MessageTag::Bitfield, Vec::new())));
    let request = sent(download.on_message(&Message::new(MessageTag::Unchoke, Vec::new())));
    assert_eq!(request.payload, Request::new(0, 0, 16384).to_bytes().to_vec());
    match download.on_message(&piece_message(0, 0, &data)) {
        Ok(Step::Complete(piece)) => assert_eq!(piece, data),
        other => panic!("the piece was due, not {:?}", other),
    }
}

#[test]
fn a_piece_with_the_wrong_digest_is_not_handed_out() {
    let data = content(100);
    let mut expected = sha1(&data);
    expected[19] ^= 0x80;
    let mut download = PieceDownload::new(0, data.len(), expected).unwrap();
    sent(download.on_message(&Message::new(MessageTag::Bitfield, Vec::new())));
    sent(download.on_message(&Message::new(MessageTag::Unchoke, Vec::new())));
    assert_eq!(
        download.on_message(&piece_message(0, 0, &data)).unwrap_err(),
        DownloadError::HashVerificationFailure
    );
    assert_eq!(download.stage(), Stage::Failed);
    assert_eq!(download.received(), 0);
    assert_eq!(
        download.on_message(&piece_message(0, 0, &data)).unwrap_err(),
        DownloadError::Finished
    );
}

#[test]
fn blocks_that_do_not_add_up_are_a_size_mismatch() {
    let data = content(100);
    let mut download = PieceDownload::new(0, data.len(), sha1(&data)).unwrap();
    sent(download.on_message(&Message::new(MessageTag::Bitfield, Vec::new())));
    sent(download.on_message(&Message::new(MessageTag::Unchoke, Vec::new())));
    assert_eq!(
        download.on_message(&piece_message(0, 0, &data[..99])).unwrap_err(),
        DownloadError::SizeMismatch { expected: 100, found: 99 }
    );
    assert_eq!(download.stage(), Stage::Failed);
}

#[test]
fn another_message_than_the_one_due_ends_the_download() {
    let mut download = PieceDownload::new(0, 100, [0; 20]).unwrap();
    assert_eq!(
        download.on_message(&Message::new(MessageTag::Unchoke, Vec::new())).unwrap_err(),
        DownloadError::UnexpectedMessage { expected: MessageTag::Bitfield, found: MessageTag::Unchoke }
    );
    assert_eq!(download.stage(), Stage::Failed);

    let mut download = PieceDownload::new(0, 100, [0; 20]).unwrap();
    sent(download.on_message(&Message::new(MessageTag::Bitfield, Vec::new())));
    assert_eq!(
        download.on_message(&Message::new(MessageTag::Choke, Vec::new())).unwrap_err(),
        DownloadError::UnexpectedMessage { expected: MessageTag::Unchoke, found: MessageTag::Choke }
    );
    assert_eq!(download.stage(), Stage::Failed);

    let mut download = PieceDownload::new(0, 100, [0; 20]).unwrap();
    sent(download.on_message(&Message::new(MessageTag::Bitfield, Vec::new())));
    sent(download.on_message(&Message::new(MessageTag::Unchoke, Vec::new())));
    assert_eq!(
        download.on_message(&Message::new(MessageTag::Have, vec![0, 0, 0, 1])).unwrap_err(),
        DownloadError::UnexpectedMessage { expected: MessageTag::Piece, found: MessageTag::Have }
    );
    assert_eq!(download.stage(), Stage::Failed);
}

#[test]
fn an_unchoke_with_a_payload_ends_the_download() {
    let mut download = PieceDownload::new(0, 100, [0; 20]).unwrap();
    sent(download.on_message(&Message::new(MessageTag::Bitfield, Vec::new())));
    assert_eq!(
        download.on_message(&Message::new(MessageTag::Unchoke, vec![0])).unwrap_err(),
        DownloadError::UnexpectedPayload
    );
    assert_eq!(download.stage(), Stage::Failed);
}

#[test]
fn a_piece_message_without_its_header_ends_the_download() {
    let mut download = PieceDownload::new(0, 100, [0; 20]).unwrap();
    sent(download.on_message(&Message::new(MessageTag::Bitfield, Vec::new())));
    sent(download.on_message(&Message::new(MessageTag::Unchoke, Vec::new())));
    assert_eq!(
        download.on_message(&Message::new(MessageTag::Piece, vec![0; 7])).unwrap_err(),
        DownloadError::UnexpectedPayload
    );
}

#[test]
fn a_block_that_was_not_asked_for_ends_the_download() {
    let data = content(20000);
    let mut download = PieceDownload::new(5, data.len(), sha1(&data)).unwrap();
    sent(download.on_message(&Message::new(MessageTag::Bitfield, Vec::new())));
    sent(download.on_message(&Message::new(MessageTag::Unchoke, Vec::new())));
    assert_eq!(
        download.on_message(&piece_message(4, 0, &data[..16384])).unwrap_err(),
        DownloadError::WrongBlock { index: 4, begin: 0 }
    );
    assert_eq!(download.stage(), Stage::Failed);

    let mut download = PieceDownload::new(5, data.len(), sha1(&data)).unwrap();
    sent(download.on_message(&Message::new(MessageTag::Bitfield, Vec::new())));
    sent(download.on_message(&Message::new(MessageTag::Unchoke, Vec::new())));
    assert_eq!(
        download.on_message(&piece_message(5, 16384, &data[16384..])).unwrap_err(),
        DownloadError::WrongBlock { index: 5, begin: 16384 }
    );
}

#[test]
fn an_empty_piece_needs_no_block() {
    let mut download = PieceDownload::new(0, 0, sha1(b"")).unwrap();
    sent(download.on_message(&Message::new(MessageTag::Bitfield, Vec::new())));
    match download.on_message(&Message::new(MessageTag::Unchoke, Vec::new())) {
        Ok(Step::Complete(piece)) => assert!(piece.is_empty()),
        other => panic!("the piece was due, not {:?}", other),
    }
    assert_eq!(download.stage(), Stage::Done);
}

#[test]
fn a_piece_too_long_for_the_wire_is_refused() {
    if usize::BITS > 32 {
        assert!(PieceDownload::new(0, u32::MAX as usize + 1, [0; 20]).is_none());
    }
    assert!(PieceDownload::new(0, u32::MAX as usize, [0; 20]).is_some());
}
