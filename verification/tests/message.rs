use bittorrent_core::message::{FrameError, Message, MessageFramer, MessageTag, MAX};
use bytes::BytesMut;

fn buffer(bytes: &[u8]) -> BytesMut {
    BytesMut::from(bytes)
}

#[test]
fn tags_have_their_wire_bytes() {
    let tags = [
        MessageTag::Choke,
        MessageTag::Unchoke,
        MessageTag::Interested,
        MessageTag::NotInterested,
        MessageTag::Have,
        MessageTag::Bitfield,
        MessageTag::Request,
        MessageTag::Piece,
        MessageTag::Cancel,
    ];
    for (byte, tag) in tags.iter().enumerate() {
        assert_eq!(tag.repr(), byte as u8);
        assert_eq!(MessageTag::from_repr(byte as u8), Some(*tag));
    }
    assert_eq!(MessageTag::from_repr(9), None);
    assert_eq!(MessageTag::from_repr(255), None);
}

#[test]
fn new_message_counts_the_tag() {
    let m = Message::new(MessageTag::Have, vec![0, 0, 0, 1]);
    assert_eq!(m.length, 5);
    assert_eq!(m.tag, MessageTag::Have);
    assert_eq!(m.payload, vec![0, 0, 0, 1]);
}

#[test]
fn decodes_a_frame_and_consumes_it() {
    let mut src = buffer(&[0, 0, 0, 5, 4, 0, 0, 0, 9, 0xaa]);
    let m = MessageFramer.decode(&mut src).unwrap().unwrap();
    assert_eq!(m.length, 5);
    assert_eq!(m.tag, MessageTag::Have);
    assert_eq!(m.payload, vec![0, 0, 0, 9]);
    assert_eq!(&src[..], &[0xaa]);
}

#[test]
fn decodes_a_frame_without_payload() {
    let mut src = buffer(&[0, 0, 0, 1, 1]);
    let m = MessageFramer.decode(&mut src).unwrap().unwrap();
    assert_eq!(m.length, 1);
    assert_eq!(m.tag, MessageTag::Unchoke);
    assert!(m.payload.is_empty());
    assert!(src.is_empty());
}

#[test]
fn keeps_the_last_byte_of_the_payload() {
    let mut src = buffer(&[0, 0, 0, 3, 5, 0xf0, 0x0f]);
    let m = MessageFramer.decode(&mut src).unwrap().unwrap();
    assert_eq!(m.tag, MessageTag::Bitfield);
    assert_eq!(m.payload, vec![0xf0, 0x0f]);
}

#[test]
fn reads_the_length_most_significant_byte_first() {
    let mut frame = vec![0, 0, 1, 1, 7];
    frame.extend(std::iter::repeat(0x55).take(256));
    let mut src = buffer(&frame);
    let m = MessageFramer.decode(&mut src).unwrap().unwrap();
    assert_eq!(m.length, 257);
    assert_eq!(m.payload.len(), 256);
    assert!(src.is_empty());
}

#[test]
fn incomplete_frames_leave_the_buffer_alone() {
    for cut in 0..10 {
        let whole = [0u8, 0, 0, 6, 7, 1, 2, 3, 4, 5];
        let mut src = buffer(&whole[..cut]);
        assert!(MessageFramer.decode(&mut src).unwrap().is_none());
        assert_eq!(&src[..], &whole[..cut]);
    }
}

#[test]
fn frame_fed_one_byte_at_a_time() {
    let mut frame = BytesMut::new();
    MessageFramer
        .encode(Message::new(MessageTag::Request, vec![0, 0, 0, 1, 0, 0, 64, 0, 0, 0, 64, 0]), &mut frame)
        .unwrap();
    let frame = frame.to_vec();
    let mut src = BytesMut::new();
    for (i, byte) in frame.iter().enumerate() {
        src.extend_from_slice(&[*byte]);
        let decoded = MessageFramer.decode(&mut src).unwrap();
        if i + 1 < frame.len() {
            assert!(decoded.is_none());
            assert_eq!(src.len(), i + 1);
        } else {
            let m = decoded.unwrap();
            assert_eq!(m.tag, MessageTag::Request);
            assert_eq!(m.length, 13);
            assert_eq!(m.payload, vec![0, 0, 0, 1, 0, 0, 64, 0, 0, 0, 64, 0]);
            assert!(src.is_empty());
        }
    }
    assert!(MessageFramer.decode(&mut src).unwrap().is_none());
}

#[test]
fn frame_above_the_ceiling_is_refused() {
    let mut src = buffer(&[0, 1, 0, 1, 7, 1, 2]);
    assert_eq!(MessageFramer.decode(&mut src).unwrap_err(), FrameError::TooLarge { length: 65537 });
    assert_eq!(&src[..], &[0, 1, 0, 1, 7, 1, 2]);
    let mut src = buffer(&[0xff, 0xff, 0xff, 0xff]);
    assert_eq!(
        MessageFramer.decode(&mut src).unwrap_err(),
        FrameError::TooLarge { length: 0xffff_ffff }
    );
    assert_eq!(src.len(), 4);
}

#[test]
fn frame_at_the_ceiling_is_accepted() {
    let mut frame = vec![0, 1, 0, 0, 7];
    frame.extend(std::iter::repeat(9).take(MAX - 1));
    let mut src = buffer(&frame[..100]);
    assert!(MessageFramer.decode(&mut src).unwrap().is_none());
    let mut src = buffer(&frame);
    let m = MessageFramer.decode(&mut src).unwrap().unwrap();
    assert_eq!(m.length as usize, MAX);
    assert_eq!(m.payload.len(), MAX - 1);
    assert!(src.is_empty());
}

#[test]
fn keep_alive_is_skipped() {
    let mut src = buffer(&[0, 0, 0, 0]);
    assert!(MessageFramer.decode(&mut src).unwrap().is_none());
    assert!(src.is_empty());
    let mut src = buffer(&[0, 0, 0, 0, 0, 0, 0, 0, 0, 0, 0, 1, 2, 0, 0]);
    let m = MessageFramer.decode(&mut src).unwrap().unwrap();
    assert_eq!(m.tag, MessageTag::Interested);
    assert!(m.payload.is_empty());
    assert_eq!(&src[..], &[0, 0]);
}

#[test]
fn keep_alive_before_an_incomplete_frame_is_consumed() {
    let mut src = buffer(&[0, 0, 0, 0, 0, 0, 0, 5, 4]);
    assert!(MessageFramer.decode(&mut src).unwrap().is_none());
    assert_eq!(&src[..], &[0, 0, 0, 5, 4]);
    src.extend_from_slice(&[1, 2, 3, 4]);
    let m = MessageFramer.decode(&mut src).unwrap().unwrap();
    assert_eq!(m.tag, MessageTag::Have);
    assert_eq!(m.payload, vec![1, 2, 3, 4]);
}

#[test]
fn unknown_tag_is_refused() {
    let mut src = buffer(&[0, 0, 0, 2, 9, 1]);
    assert_eq!(MessageFramer.decode(&mut src).unwrap_err(), FrameError::UnknownTag { tag: 9 });
    assert_eq!(&src[..], &[0, 0, 0, 2, 9, 1]);
    let mut src = buffer(&[0, 0, 0, 2, 9]);
    assert!(MessageFramer.decode(&mut src).unwrap().is_none());
}

#[test]
fn encodes_with_a_big_endian_length() {
    let mut dst = BytesMut::new();
    MessageFramer.encode(Message::new(MessageTag::Have, vec![0, 0, 1, 2]), &mut dst).unwrap();
    assert_eq!(&dst[..], &[0, 0, 0, 5, 4, 0, 0, 1, 2]);
    MessageFramer.encode(Message::new(MessageTag::Interested, Vec::new()), &mut dst).unwrap();
    assert_eq!(&dst[..], &[0, 0, 0, 5, 4, 0, 0, 1, 2, 0, 0, 0, 1, 2]);
}

#[test]
fn encodes_a_long_frame() {
    let mut dst = BytesMut::new();
    MessageFramer.encode(Message::new(MessageTag::Piece, vec![7; 0x1234]), &mut dst).unwrap();
    assert_eq!(&dst[..5], &[0, 0, 0x12, 0x35, 7]);
    assert_eq!(dst.len(), 4 + 1 + 0x1234);
}

#[test]
fn encode_goes_by_the_payload_not_the_length_field() {
    let mut dst = BytesMut::new();
    let message = Message { length: 99, tag: MessageTag::Choke, payload: vec![1] };
    MessageFramer.encode(message, &mut dst).unwrap();
    assert_eq!(&dst[..], &[0, 0, 0, 2, 0, 1]);
}

#[test]
fn encode_refuses_what_is_too_large() {
    let mut dst = buffer(&[1, 2, 3]);
    let message = Message::new(MessageTag::Piece, vec![0; MAX]);
    assert_eq!(
        MessageFramer.encode(message, &mut dst).unwrap_err(),
        FrameError::TooLarge { length: MAX + 1 }
    );
    assert_eq!(&dst[..], &[1, 2, 3]);
    let message = Message::new(MessageTag::Piece, vec![0; MAX - 1]);
    assert!(MessageFramer.encode(message, &mut dst).is_ok());
    assert_eq!(dst.len(), 3 + 4 + MAX);
}

#[test]
fn what_was_encoded_decodes() {
    let mut wire = BytesMut::new();
    let payloads: Vec<Vec<u8>> = vec![Vec::new(), vec![1], vec![0; 16384 + 8], (0..=255).collect()];
    for (i, payload) in payloads.iter().enumerate() {
        let tag = MessageTag::from_repr((i % 9) as u8).unwrap();
        MessageFramer.encode(Message::new(tag, payload.clone()), &mut wire).unwrap();
    }
    for (i, payload) in payloads.iter().enumerate() {
        let m = MessageFramer.decode(&mut wire).unwrap().unwrap();
        assert_eq!(m.tag, MessageTag::from_repr((i % 9) as u8).unwrap());
        assert_eq!(&m.payload, payload);
        assert_eq!(m.length as usize, payload.len() + 1);
    }
    assert!(wire.is_empty());
    assert!(MessageFramer.decode(&mut wire).unwrap().is_none());
}
