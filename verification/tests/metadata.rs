use torrent_client::digest::{identifier_from_hex, identifier_to_hex};
use torrent_client::error::Error;
use torrent_client::metadata::parse;

const HASH_ABCD: [u8; 20] = [
    129, 254, 139, 254, 135, 87, 108, 62, 203, 34, 66, 111, 142, 87, 132, 115, 130, 145, 122, 207,
];
const HASH_EFGHIJ: [u8; 20] = [
    212, 140, 136, 178, 170, 87, 246, 7, 222, 226, 85, 144, 130, 244, 151, 255, 214, 6, 128, 124,
];

fn descriptor(announce: &str, length: i64, piece_length: i64, hashes: &[u8]) -> Vec<u8> {
    let mut out = Vec::new();
    out.extend_from_slice(format!("d8:announce{}:{}", announce.len(), announce).as_bytes());
    out.extend_from_slice(b"4:infod");
    out.extend_from_slice(format!("6:lengthi{}e", length).as_bytes());
    out.extend_from_slice(b"4:name10:sample.txt");
    out.extend_from_slice(format!("12:piece lengthi{}e", piece_length).as_bytes());
    out.extend_from_slice(format!("6:pieces{}:", hashes.len()).as_bytes());
    out.extend_from_slice(hashes);
    out.extend_from_slice(b"ee");
    out
}

fn two_hashes() -> Vec<u8> {
    let mut hashes = HASH_ABCD.to_vec();
    hashes.extend_from_slice(&HASH_EFGHIJ);
    hashes
}

#[test]
fn single_file_descriptor_of_two_pieces() {
    let meta = parse(&descriptor("http://tracker.test/announce", 10, 4, &two_hashes())).unwrap();
    assert_eq!(meta.announce(), "http://tracker.test/announce");
    assert_eq!(meta.length(), 10);
    assert_eq!(meta.piece_length(), 4);
    assert_eq!(meta.piece_count(), 2);
    assert_eq!(meta.piece_size(0), Ok(4));
    assert_eq!(meta.piece_size(1), Ok(6));
    assert_eq!(meta.piece_hash(0), Some(HASH_ABCD.to_vec()));
    assert_eq!(meta.piece_hash(1), Some(HASH_EFGHIJ.to_vec()));
    assert_eq!(meta.pieces(), &two_hashes()[..]);
}

#[test]
fn a_piece_that_does_not_exist_has_no_size() {
    let meta = parse(&descriptor("http://t/a", 10, 4, &two_hashes())).unwrap();
    assert_eq!(meta.piece_size(2), Err(Error::InvalidMetadata));
    assert_eq!(meta.piece_size(usize::MAX), Err(Error::InvalidMetadata));
    assert_eq!(meta.piece_hash(2), None);
}

#[test]
fn a_last_piece_without_bytes_is_invalid() {
    let short = parse(&descriptor("http://t/a", 4, 4, &two_hashes())).unwrap();
    assert_eq!(short.piece_size(0), Ok(4));
    assert_eq!(short.piece_size(1), Err(Error::InvalidMetadata));
    let shorter = parse(&descriptor("http://t/a", 3, 4, &two_hashes())).unwrap();
    assert_eq!(shorter.piece_size(1), Err(Error::InvalidMetadata));
    let empty = parse(&descriptor("http://t/a", 0, 4, &[])).unwrap();
    assert_eq!(empty.piece_count(), 0);
    assert_eq!(empty.piece_size(0), Err(Error::InvalidMetadata));
}

#[test]
fn piece_sizes_do_not_overflow() {
    let meta = parse(&descriptor("http://t/a", i64::MAX, i64::MAX, &two_hashes())).unwrap();
    assert_eq!(meta.piece_size(0), Ok(i64::MAX as u64));
    assert_eq!(meta.piece_size(1), Err(Error::InvalidMetadata));
}

#[test]
fn content_identifier_is_the_digest_of_the_info_dictionary() {
    let meta = parse(&descriptor("http://tracker.test/announce", 10, 4, &two_hashes())).unwrap();
    assert_eq!(
        identifier_to_hex(&meta.content_identifier()),
        "b156671c5b38680ebf7f47c9e494e61568df52ff"
    );
}

#[test]
fn content_identifier_is_the_same_each_time() {
    let bytes = descriptor("http://tracker.test/announce", 10, 4, &two_hashes());
    let first = parse(&bytes).unwrap().content_identifier();
    let second = parse(&bytes).unwrap().content_identifier();
    assert_eq!(first, second);
}

#[test]
fn content_identifier_ignores_the_announce_url() {
    let a = parse(&descriptor("http://tracker.test/announce", 10, 4, &two_hashes())).unwrap();
    let b = parse(&descriptor("http://other.test/x", 10, 4, &two_hashes())).unwrap();
    assert_eq!(a.content_identifier(), b.content_identifier());
}

#[test]
fn content_identifier_changes_with_the_info_dictionary() {
    let a = parse(&descriptor("http://t/a", 10, 4, &two_hashes())).unwrap();
    let b = parse(&descriptor("http://t/a", 9, 4, &two_hashes())).unwrap();
    let mut other = two_hashes();
    other[7] ^= 1;
    let c = parse(&descriptor("http://t/a", 10, 4, &other)).unwrap();
    assert_ne!(a.content_identifier(), b.content_identifier());
    assert_ne!(a.content_identifier(), c.content_identifier());
}

#[test]
fn content_identifier_ignores_the_order_of_the_info_keys() {
    let mut unsorted = Vec::new();
    unsorted.extend_from_slice(b"d4:infod6:pieces40:");
    unsorted.extend_from_slice(&two_hashes());
    unsorted.extend_from_slice(b"12:piece lengthi4e4:name10:sample.txt6:lengthi10ee");
    unsorted.extend_from_slice(b"8:announce10:http://t/ae");
    let meta = parse(&unsorted).unwrap();
    assert_eq!(
        identifier_to_hex(&meta.content_identifier()),
        "b156671c5b38680ebf7f47c9e494e61568df52ff"
    );
}

#[test]
fn missing_keys_are_reported() {
    assert!(matches!(parse(b"de"), Err(Error::MissingField)));
    assert!(matches!(parse(b"i1e"), Err(Error::MissingField)));
    assert!(matches!(parse(b"d8:announce3:urle"), Err(Error::MissingField)));
    assert!(matches!(parse(b"d4:infodee"), Err(Error::MissingField)));
    assert!(matches!(parse(b"d8:announce3:url4:infodee"), Err(Error::MissingField)));
    assert!(matches!(
        parse(b"d8:announce3:url4:infod12:piece lengthi4e6:pieces0:ee"),
        Err(Error::MissingField)
    ));
    assert!(matches!(
        parse(b"d8:announce3:url4:infod6:lengthi10e6:pieces0:ee"),
        Err(Error::MissingField)
    ));
    assert!(matches!(
        parse(b"d8:announce3:url4:infod6:lengthi10e12:piece lengthi4eee"),
        Err(Error::MissingField)
    ));
    assert!(matches!(
        parse(b"d8:announce3:url4:infod5:filesle12:piece lengthi4e6:pieces0:ee"),
        Err(Error::MissingField)
    ));
    assert!(matches!(
        parse(b"d8:announce3:url4:infod6:length2:1012:piece lengthi4e6:pieces0:ee"),
        Err(Error::MissingField)
    ));
}

#[test]
fn hashes_that_are_not_whole_are_malformed() {
    assert!(matches!(
        parse(&descriptor("http://t/a", 10, 4, &two_hashes()[..39])),
        Err(Error::MalformedInput)
    ));
    assert!(matches!(
        parse(&descriptor("http://t/a", 10, 4, &[1])),
        Err(Error::MalformedInput)
    ));
}

#[test]
fn a_descriptor_that_does_not_decode_is_malformed() {
    assert!(matches!(parse(b""), Err(Error::MalformedInput)));
    assert!(matches!(parse(b"d8:announce3:url"), Err(Error::MalformedInput)));
}

#[test]
fn lengths_out_of_range_are_invalid() {
    assert!(matches!(
        parse(&descriptor("http://t/a", -1, 4, &two_hashes())),
        Err(Error::InvalidMetadata)
    ));
    assert!(matches!(
        parse(&descriptor("http://t/a", 10, 0, &two_hashes())),
        Err(Error::InvalidMetadata)
    ));
    assert!(matches!(
        parse(&descriptor("http://t/a", 10, -4, &two_hashes())),
        Err(Error::InvalidMetadata)
    ));
}

#[test]
fn an_announce_url_that_is_no_text_is_invalid() {
    let mut bytes = Vec::new();
    bytes.extend_from_slice(b"d8:announce2:\xff\xfe4:infod6:lengthi10e12:piece lengthi4e6:pieces0:ee");
    assert!(matches!(parse(&bytes), Err(Error::InvalidMetadata)));
}

#[test]
fn identifiers_are_written_in_lower_case_hexadecimal() {
    assert_eq!(identifier_to_hex(&[0x00, 0x1a, 0xff, 0x9c]), "001aff9c");
    assert_eq!(
        identifier_to_hex(&HASH_ABCD),
        "81fe8bfe87576c3ecb22426f8e57847382917acf"
    );
}

#[test]
fn identifiers_are_read_from_hexadecimal_of_either_case() {
    assert_eq!(
        identifier_from_hex(b"81fe8bfe87576c3ecb22426f8e57847382917acf"),
        Ok(HASH_ABCD.to_vec())
    );
    assert_eq!(
        identifier_from_hex(b"81FE8BFE87576C3ECB22426F8E57847382917ACF"),
        Ok(HASH_ABCD.to_vec())
    );
}

#[test]
fn identifiers_of_the_wrong_shape_are_malformed() {
    assert_eq!(identifier_from_hex(b""), Err(Error::MalformedInput));
    assert_eq!(identifier_from_hex(b"81fe"), Err(Error::MalformedInput));
    assert_eq!(
        identifier_from_hex(b"81fe8bfe87576c3ecb22426f8e57847382917ac"),
        Err(Error::MalformedInput)
    );
    assert_eq!(
        identifier_from_hex(b"81fe8bfe87576c3ecb22426f8e57847382917acg"),
        Err(Error::MalformedInput)
    );
    assert_eq!(
        identifier_from_hex(b"81fe8bfe87576c3ecb22426f8e57847382917acf00"),
        Err(Error::MalformedInput)
    );
}

#[test]
fn errors_describe_themselves() {
    assert_eq!(Error::MalformedInput.describe(), "malformed input");
    assert_eq!(Error::MissingField.describe(), "missing field in descriptor");
    assert_eq!(Error::InvalidMetadata.describe(), "invalid metadata");
    assert_eq!(Error::TrackerProtocolError.describe(), "tracker protocol error");
    assert_eq!(Error::HandshakeFailed.describe(), "handshake failed");
    assert_eq!(Error::ConnectionLost.describe(), "connection lost");
    assert_eq!(Error::PieceHashMismatch.describe(), "piece hash mismatch");
}
