use bittorrent_core::bencode::ParseError;
use bittorrent_core::net::{
    tracker_url, url_encode, HandShake, HandshakeError, HandshakeState, PeerAddress, Peers, Piece,
    Request, TrackerResponse, TrackerSend,
};
use bittorrent_core::wire::{array_from, bytes_equal, u32_from_be, u32_to_be};

#[test]
fn handshake_is_68_bytes_that_begin_with_the_protocol() {
    let handshake = HandShake::new([0u8; 20], *b"00112233445566778899");
    let bytes = handshake.to_bytes();
    assert_eq!(bytes.len(), 68);
    assert_eq!(bytes[0], 19);
    assert_eq!(&bytes[1..20], b"BitTorrent protocol");
    assert_eq!(&bytes[20..28], &[0u8; 8]);
    assert_eq!(&bytes[28..48], &[0u8; 20]);
    assert_eq!(&bytes[48..68], b"00112233445566778899");
}

#[test]
fn handshake_fields() {
    let handshake = HandShake::new([7; 20], [9; 20]);
    assert_eq!(handshake.len, 19);
    assert_eq!(&handshake.bittorrent, b"BitTorrent protocol");
    assert_eq!(handshake.reserved, [0; 8]);
    assert_eq!(handshake.sha_hash, [7; 20]);
    assert_eq!(handshake.peer_id, [9; 20]);
}

#[test]
fn handshake_from_bytes_is_the_inverse_of_to_bytes() {
    let mut handshake = HandShake::new([7; 20], [9; 20]);
    handshake.reserved = [1, 2, 3, 4, 5, 6, 7, 8];
    assert_eq!(HandShake::from_bytes(&handshake.to_bytes()), handshake);
    let bytes: Vec<u8> = (100..168).collect();
    let bytes: [u8; 68] = bytes.try_into().unwrap();
    assert_eq!(HandShake::from_bytes(&bytes).to_bytes(), bytes);
}

#[test]
fn handshake_is_completed_by_a_matching_reply() {
    let ours = HandShake::new([7; 20], [1; 20]);
    let mut theirs = HandShake::new([7; 20], [2; 20]);
    theirs.reserved = [0, 0, 0, 0, 0, 0x10, 0, 5];
    assert_eq!(ours.receive(&theirs.to_bytes()), HandshakeState::Completed { peer_id: [2; 20] });
    assert_eq!(theirs.validate(&[7; 20]), Ok([2; 20]));
}

#[test]
fn handshake_fails_on_a_wrong_length_byte() {
    let ours = HandShake::new([7; 20], [1; 20]);
    let mut reply = HandShake::new([7; 20], [2; 20]).to_bytes();
    reply[0] = 18;
    assert_eq!(
        ours.receive(&reply),
        HandshakeState::Failed { error: HandshakeError::BadLength { length: 18 } }
    );
}

#[test]
fn handshake_fails_on_a_wrong_protocol_name() {
    let ours = HandShake::new([7; 20], [1; 20]);
    let mut reply = HandShake::new([7; 20], [2; 20]).to_bytes();
    reply[19] = b'L';
    assert_eq!(ours.receive(&reply), HandshakeState::Failed { error: HandshakeError::BadProtocol });
}

#[test]
fn handshake_fails_on_another_info_hash() {
    let ours = HandShake::new([7; 20], [1; 20]);
    let reply = HandShake::new([8; 20], [2; 20]).to_bytes();
    assert_eq!(
        ours.receive(&reply),
        HandshakeState::Failed { error: HandshakeError::InfoHashMismatch }
    );
}

#[test]
fn handshake_fails_on_a_short_or_long_reply() {
    let ours = HandShake::new([7; 20], [1; 20]);
    let reply = HandShake::new([7; 20], [2; 20]).to_bytes();
    assert_eq!(
        ours.receive(&reply[..67]),
        HandshakeState::Failed { error: HandshakeError::Truncated { received: 67 } }
    );
    assert_eq!(
        ours.receive(&[]),
        HandshakeState::Failed { error: HandshakeError::Truncated { received: 0 } }
    );
    let mut long = reply.to_vec();
    long.push(0);
    assert_eq!(
        ours.receive(&long),
        HandshakeState::Failed { error: HandshakeError::Truncated { received: 69 } }
    );
}

#[test]
fn request_holds_its_numbers_big_endian() {
    let request = Request::new(1, 16384, 0x01020304);
    assert_eq!(request.index(), 1);
    assert_eq!(request.begin(), 16384);
    assert_eq!(request.length(), 0x01020304);
    assert_eq!(request.to_bytes(), [0, 0, 0, 1, 0, 0, 0x40, 0, 1, 2, 3, 4]);
    let request = Request::new(u32::MAX, 0, u32::MAX - 1);
    assert_eq!(request.index(), u32::MAX);
    assert_eq!(request.begin(), 0);
    assert_eq!(request.length(), u32::MAX - 1);
}

#[test]
fn request_from_bytes() {
    let request = Request::from_bytes(&[0, 0, 0, 1, 0, 0, 0x40, 0, 1, 2, 3, 4]).unwrap();
    assert_eq!(request, Request::new(1, 16384, 0x01020304));
    assert_eq!(Request::from_bytes(&[0; 11]), None);
    assert_eq!(Request::from_bytes(&[0; 13]), None);
    assert_eq!(Request::from_bytes(&[]), None);
}

#[test]
fn piece_out_of_a_payload() {
    let piece = Piece::from_payload(&[0, 0, 1, 0, 0, 1, 0, 0, 9, 8, 7]).unwrap();
    assert_eq!(piece.index(), 256);
    assert_eq!(piece.begin(), 65536);
    assert_eq!(piece.block(), &[9, 8, 7]);
    let piece = Piece::from_payload(&[0xff; 8]).unwrap();
    assert_eq!(piece.index(), u32::MAX);
    assert_eq!(piece.begin(), u32::MAX);
    assert!(piece.block().is_empty());
    assert_eq!(Piece::from_payload(&[0; 7]), None);
    assert_eq!(Piece::from_payload(&[]), None);
}

#[test]
fn compact_peers() {
    let peers = Peers::from_bytes(&[192, 168, 1, 10, 0x1a, 0xe1, 10, 0, 0, 1, 0, 80]).unwrap();
    assert_eq!(
        peers.0,
        vec![
            PeerAddress { ip: [192, 168, 1, 10], port: 6881 },
            PeerAddress { ip: [10, 0, 0, 1], port: 80 },
        ]
    );
    assert!(Peers::from_bytes(&[]).unwrap().0.is_empty());
    assert_eq!(Peers::from_bytes(&[0xff; 6]).unwrap().0[0].port, 65535);
    assert_eq!(Peers::from_bytes(&[1, 2, 3, 4, 5]).unwrap_err(), ParseError::Schema);
    assert_eq!(Peers::from_bytes(&[0; 7]).unwrap_err(), ParseError::Schema);
}

#[test]
fn tracker_response() {
    let mut answer = b"d8:intervali1800e5:peers6:".to_vec();
    answer.extend_from_slice(&[1, 2, 3, 4, 0x1a, 0xe1]);
    answer.extend_from_slice(b"e");
    let response = TrackerResponse::parse(&answer).unwrap();
    assert_eq!(response.interval, 1800);
    assert_eq!(response.peers.0, vec![PeerAddress { ip: [1, 2, 3, 4], port: 6881 }]);
}

#[test]
fn tracker_response_errors() {
    assert_eq!(TrackerResponse::parse(b"d8:intervali1800ee").unwrap_err(), ParseError::Schema);
    assert_eq!(TrackerResponse::parse(b"d5:peers0:e").unwrap_err(), ParseError::Schema);
    assert_eq!(TrackerResponse::parse(b"d8:intervali-1e5:peers0:e").unwrap_err(), ParseError::Schema);
    assert_eq!(TrackerResponse::parse(b"d8:interval1:15:peers0:e").unwrap_err(), ParseError::Schema);
    assert_eq!(TrackerResponse::parse(b"d8:intervali1e5:peers5:abcdee").unwrap_err(), ParseError::Schema);
    assert_eq!(TrackerResponse::parse(b"d8:intervali1e5:peerslee").unwrap_err(), ParseError::Schema);
    assert_eq!(TrackerResponse::parse(b"le").unwrap_err(), ParseError::Schema);
    assert_eq!(TrackerResponse::parse(b"d8:interval").unwrap_err(), ParseError::Syntax);
    assert_eq!(TrackerResponse::parse(b"").unwrap_err(), ParseError::Syntax);
}

#[test]
fn tracker_send_defaults() {
    let send = TrackerSend::new(String::from("00112233445566778899"), 92063);
    assert_eq!(send.peer_id, "00112233445566778899");
    assert_eq!(send.port, 6881);
    assert_eq!(send.uploaded, 0);
    assert_eq!(send.downloaded, 0);
    assert_eq!(send.left, 92063);
    assert_eq!(send.compact, 1);
}

#[test]
fn url_encode_escapes_every_byte() {
    let hash: [u8; 20] = [
        0xd6, 0x9f, 0x91, 0xe6, 0xb2, 0xae, 0x4c, 0x54, 0x24, 0x68, 0xd1, 0x07, 0x3a, 0x71, 0xd4,
        0xea, 0x13, 0x87, 0x9a, 0x7f,
    ];
    assert_eq!(
        url_encode(&hash),
        "%d6%9f%91%e6%b2%ae%4c%54%24%68%d1%07%3a%71%d4%ea%13%87%9a%7f"
    );
    assert_eq!(url_encode(&[0; 20]), "%00".repeat(20));
    assert_eq!(url_encode(b"aaaaaaaaaaaaaaaaaaaa"), "%61".repeat(20));
    assert_eq!(url_encode(&[0xff; 20]), "%ff".repeat(20));
    assert_eq!(url_encode(&[0x0a; 20]).len(), 60);
}

#[test]
fn tracker_url_puts_the_info_hash_last() {
    let url = tracker_url("http://t.example/announce", "peer_id=x&port=6881", &[0xab; 20]);
    assert_eq!(
        url,
        format!("http://t.example/announce?peer_id=x&port=6881&info_hash={}", "%ab".repeat(20))
    );
}

#[test]
fn big_endian_numbers() {
    assert_eq!(u32_to_be(0x01020304), [1, 2, 3, 4]);
    assert_eq!(u32_to_be(0), [0, 0, 0, 0]);
    assert_eq!(u32_to_be(u32::MAX), [255, 255, 255, 255]);
    assert_eq!(u32_from_be(1, 2, 3, 4), 0x01020304);
    assert_eq!(u32_from_be(255, 255, 255, 255), u32::MAX);
    assert_eq!(u32_from_be(0, 0, 1, 0), 256);
}

#[test]
fn byte_helpers() {
    assert!(bytes_equal(b"", b""));
    assert!(bytes_equal(b"abc", b"abc"));
    assert!(!bytes_equal(b"abc", b"abd"));
    assert!(!bytes_equal(b"abc", b"ab"));
    assert_eq!(array_from::<3>(b"abcdef", 2), *b"cde");
    assert_eq!(array_from::<0>(b"abc", 3), [0u8; 0]);
}
