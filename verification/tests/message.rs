use torrent_client::error::Error;
use torrent_client::message::{decode_frame, encode_message, frame_length, parse_message, Message};

fn debug(m: &Message) -> String {
    format!("{:?}", m)
}

fn samples() -> Vec<Message> {
    vec![
        Message::KeepAlive,
        Message::Unchoke,
        Message::Interested,
        Message::Have { index: 0x01020304 },
        Message::Bitfield { bits: vec![0b1010_0000, 0xff] },
        Message::Bitfield { bits: vec![] },
        Message::Request { index: 7, begin: 16384, length: 16384 },
        Message::Request { index: u32::MAX, begin: u32::MAX, length: u32::MAX },
        Message::Piece { index: 1, begin: 32768, block: vec![9, 8, 7] },
        Message::Piece { index: 0, begin: 0, block: vec![] },
        Message::Other { id: 0, payload: vec![] },
        Message::Other { id: 8, payload: vec![0, 0, 0, 1, 0, 0, 0, 2, 0, 0, 0, 3] },
        Message::Other { id: 20, payload: vec![1, 2, 3] },
    ]
}

#[test]
fn frames_have_the_wire_layout() {
    assert_eq!(encode_message(&Message::KeepAlive), vec![0, 0, 0, 0]);
    assert_eq!(encode_message(&Message::Unchoke), vec![0, 0, 0, 1, 1]);
    assert_eq!(encode_message(&Message::Interested), vec![0, 0, 0, 1, 2]);
    assert_eq!(
        encode_message(&Message::Have { index: 0x01020304 }),
        vec![0, 0, 0, 5, 4, 1, 2, 3, 4]
    );
    assert_eq!(
        encode_message(&Message::Bitfield { bits: vec![0xa0, 0xff] }),
        vec![0, 0, 0, 3, 5, 0xa0, 0xff]
    );
    assert_eq!(
        encode_message(&Message::Request { index: 7, begin: 16384, length: 16384 }),
        vec![0, 0, 0, 13, 6, 0, 0, 0, 7, 0, 0, 0x40, 0, 0, 0, 0x40, 0]
    );
    assert_eq!(
        encode_message(&Message::Piece { index: 1, begin: 32768, block: vec![9, 8, 7] }),
        vec![0, 0, 0, 12, 7, 0, 0, 0, 1, 0, 0, 0x80, 0, 9, 8, 7]
    );
    assert_eq!(
        encode_message(&Message::Other { id: 20, payload: vec![1, 2, 3] }),
        vec![0, 0, 0, 4, 20, 1, 2, 3]
    );
}

#[test]
fn a_message_read_from_its_frame_is_the_message() {
    for m in samples() {
        let mut wire = encode_message(&m);
        let used = wire.len();
        wire.extend_from_slice(&[0xde, 0xad]);
        let (read, consumed) = decode_frame(&wire).unwrap();
        assert_eq!(debug(&read), debug(&m));
        assert_eq!(consumed, used);
        let body = &wire[4..used];
        assert_eq!(debug(&parse_message(body).unwrap()), debug(&m));
        assert_eq!(frame_length(&[wire[0], wire[1], wire[2], wire[3]]) as usize, body.len());
    }
}

#[test]
fn keep_alive_is_told_from_messages_with_an_id() {
    assert!(matches!(parse_message(&[]), Ok(Message::KeepAlive)));
    assert!(matches!(parse_message(&[0]), Ok(Message::Other { id: 0, .. })));
    assert!(matches!(decode_frame(&[0, 0, 0, 0]), Ok((Message::KeepAlive, 4))));
    assert!(matches!(decode_frame(&[0, 0, 0, 1, 1]), Ok((Message::Unchoke, 5))));
}

#[test]
fn frame_length_is_big_endian() {
    assert_eq!(frame_length(&[0, 0, 0, 0]), 0);
    assert_eq!(frame_length(&[0, 0, 1, 2]), 258);
    assert_eq!(frame_length(&[0x12, 0x34, 0x56, 0x78]), 0x12345678);
    assert_eq!(frame_length(&[0xff, 0xff, 0xff, 0xff]), u32::MAX);
}

#[test]
fn a_short_read_loses_the_connection() {
    assert!(matches!(decode_frame(&[]), Err(Error::ConnectionLost)));
    assert!(matches!(decode_frame(&[0, 0, 0]), Err(Error::ConnectionLost)));
    assert!(matches!(decode_frame(&[0, 0, 0, 1]), Err(Error::ConnectionLost)));
    assert!(matches!(
        decode_frame(&[0, 0, 0, 13, 6, 0, 0, 0, 7]),
        Err(Error::ConnectionLost)
    ));
    assert!(matches!(
        decode_frame(&[0xff, 0xff, 0xff, 0xff, 7, 1, 2, 3]),
        Err(Error::ConnectionLost)
    ));
}

#[test]
fn a_payload_of_the_wrong_size_is_malformed() {
    assert!(matches!(parse_message(&[1, 0]), Err(Error::MalformedInput)));
    assert!(matches!(parse_message(&[2, 0]), Err(Error::MalformedInput)));
    assert!(matches!(parse_message(&[4, 0, 0, 0]), Err(Error::MalformedInput)));
    assert!(matches!(parse_message(&[4, 0, 0, 0, 0, 0]), Err(Error::MalformedInput)));
    assert!(matches!(parse_message(&[6, 0, 0, 0, 0]), Err(Error::MalformedInput)));
    assert!(matches!(parse_message(&[7, 0, 0, 0, 0, 0, 0, 0]), Err(Error::MalformedInput)));
    assert!(matches!(decode_frame(&[0, 0, 0, 2, 1, 0]), Err(Error::MalformedInput)));
}
