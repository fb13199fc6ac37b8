use torrent_client::download::{
    verify_piece, DownloadAction, DownloadEvent, Phase, PieceDownload, BLOCK_SIZE,
};
use torrent_client::error::Error;
use torrent_client::handshake::HandshakeState;
use torrent_client::message::Message;
use torrent_client::metadata::parse;

const HASH_ABCD: [u8; 20] = [
    129, 254, 139, 254, 135, 87, 108, 62, 203, 34, 66, 111, 142, 87, 132, 115, 130, 145, 122, 207,
];
const HASH_EFGHIJ: [u8; 20] = [
    212, 140, 136, 178, 170, 87, 246, 7, 222, 226, 85, 144, 130, 244, 151, 255, 214, 6, 128, 124,
];

fn from_hex(text: &str) -> Vec<u8> {
    torrent_client::digest::identifier_from_hex(text.as_bytes()).unwrap()
}

fn big_piece() -> Vec<u8> {
    (0..40000u32).map(|i| ((i * 7 + 3) % 256) as u8).collect()
}

fn big_hash() -> Vec<u8> {
    from_hex("809edcbd2d203c77722ce3589ea2dc9f44f429f5")
}

fn descriptor() -> Vec<u8> {
    let mut out = Vec::new();
    out.extend_from_slice(b"d8:announce10:http://t/a4:infod6:lengthi10e12:piece lengthi4e6:pieces40:");
    out.extend_from_slice(&HASH_ABCD);
    out.extend_from_slice(&HASH_EFGHIJ);
    out.extend_from_slice(b"ee");
    out
}

fn expect_request(action: DownloadAction, index: u32, begin: u32, length: u32) {
    match action {
        DownloadAction::Send(Message::Request { index: i, begin: b, length: l }) => {
            assert_eq!((i, b, l), (index, begin, length));
        },
        other => panic!("{:?}", other),
    }
}

fn unchoked(index: u32, size: u32, expected: Vec<u8>) -> PieceDownload {
    let mut d = PieceDownload::new(index, size, expected).unwrap();
    assert!(matches!(
        d.step(DownloadEvent::Start),
        DownloadAction::Send(Message::Interested)
    ));
    let action = d.step(DownloadEvent::Received(Message::Unchoke));
    let first = if size < BLOCK_SIZE { size } else { BLOCK_SIZE };
    expect_request(action, index, 0, first);
    d
}

#[test]
fn a_piece_matches_its_own_hash() {
    assert_eq!(verify_piece(b"abcd", &HASH_ABCD), Ok(()));
    assert_eq!(verify_piece(b"efghij", &HASH_EFGHIJ), Ok(()));
    assert_eq!(verify_piece(b"", &from_hex("da39a3ee5e6b4b0d3255bfef95601890afd80709")), Ok(()));
}

#[test]
fn a_flipped_byte_is_a_hash_mismatch() {
    assert_eq!(verify_piece(b"abce", &HASH_ABCD), Err(Error::PieceHashMismatch));
    assert_eq!(verify_piece(b"abcd", &HASH_EFGHIJ), Err(Error::PieceHashMismatch));
    assert_eq!(verify_piece(b"abcd", &HASH_ABCD[..19]), Err(Error::PieceHashMismatch));
    let piece = big_piece();
    for at in [0usize, 16383, 16384, 39999] {
        let mut flipped = piece.clone();
        flipped[at] ^= 0x10;
        assert_eq!(verify_piece(&flipped, &big_hash()), Err(Error::PieceHashMismatch));
    }
    assert_eq!(verify_piece(&piece, &big_hash()), Ok(()));
}

#[test]
fn an_empty_piece_cannot_be_downloaded() {
    assert!(matches!(
        PieceDownload::new(0, 0, HASH_ABCD.to_vec()),
        Err(Error::InvalidMetadata)
    ));
}

#[test]
fn download_starts_with_interested_and_waits_for_unchoke() {
    let mut d = PieceDownload::new(3, 4, HASH_ABCD.to_vec()).unwrap();
    assert_eq!(d.phase(), Phase::Handshaken);
    assert!(matches!(d.step(DownloadEvent::Received(Message::Unchoke)), DownloadAction::Idle));
    assert!(matches!(
        d.step(DownloadEvent::Start),
        DownloadAction::Send(Message::Interested)
    ));
    assert_eq!(d.phase(), Phase::WaitUnchoke);
    let noise = vec![
        Message::Bitfield { bits: vec![0xff] },
        Message::KeepAlive,
        Message::Have { index: 1 },
        Message::Piece { index: 3, begin: 0, block: b"abcd".to_vec() },
        Message::Other { id: 0, payload: vec![] },
    ];
    for m in noise {
        assert!(matches!(d.step(DownloadEvent::Received(m)), DownloadAction::Wait));
        assert_eq!(d.phase(), Phase::WaitUnchoke);
        assert_eq!(d.data(), &[] as &[u8]);
    }
    expect_request(d.step(DownloadEvent::Received(Message::Unchoke)), 3, 0, 4);
    assert_eq!(d.phase(), Phase::Requesting);
}

#[test]
fn a_small_piece_is_one_block() {
    let mut d = unchoked(0, 4, HASH_ABCD.to_vec());
    let action =
        d.step(DownloadEvent::Received(Message::Piece { index: 0, begin: 0, block: b"abcd".to_vec() }));
    assert!(matches!(action, DownloadAction::Finished));
    assert_eq!(d.phase(), Phase::Complete);
    assert!(matches!(d.step(DownloadEvent::Broken), DownloadAction::Finished));
    assert_eq!(d.into_piece(), Some(b"abcd".to_vec()));
}

#[test]
fn a_large_piece_is_asked_for_block_by_block() {
    let piece = big_piece();
    let mut d = unchoked(5, 40000, big_hash());
    let action = d.step(DownloadEvent::Received(Message::Piece {
        index: 5,
        begin: 0,
        block: piece[..16384].to_vec(),
    }));
    expect_request(action, 5, 16384, 16384);
    let action = d.step(DownloadEvent::Received(Message::Piece {
        index: 5,
        begin: 16384,
        block: piece[16384..32768].to_vec(),
    }));
    expect_request(action, 5, 32768, 7232);
    assert_eq!(d.data(), &piece[..32768]);
    let action = d.step(DownloadEvent::Received(Message::Piece {
        index: 5,
        begin: 32768,
        block: piece[32768..].to_vec(),
    }));
    assert!(matches!(action, DownloadAction::Finished));
    assert_eq!(d.into_piece(), Some(piece));
}

#[test]
fn blocks_that_do_not_answer_the_request_are_passed_over() {
    let piece = big_piece();
    let mut d = unchoked(5, 40000, big_hash());
    let noise = vec![
        Message::Piece { index: 4, begin: 0, block: piece[..16384].to_vec() },
        Message::Piece { index: 5, begin: 16384, block: piece[16384..32768].to_vec() },
        Message::Piece { index: 5, begin: 0, block: piece[..100].to_vec() },
        Message::Piece { index: 5, begin: 0, block: piece[..16385].to_vec() },
        Message::Unchoke,
        Message::KeepAlive,
        Message::Bitfield { bits: vec![1] },
    ];
    for m in noise {
        assert!(matches!(d.step(DownloadEvent::Received(m)), DownloadAction::Wait));
        assert_eq!(d.phase(), Phase::Requesting);
        assert_eq!(d.data().len(), 0);
    }
    let action = d.step(DownloadEvent::Received(Message::Piece {
        index: 5,
        begin: 0,
        block: piece[..16384].to_vec(),
    }));
    expect_request(action, 5, 16384, 16384);
}

#[test]
fn a_piece_with_another_hash_fails() {
    let mut d = unchoked(0, 4, HASH_ABCD.to_vec());
    let action =
        d.step(DownloadEvent::Received(Message::Piece { index: 0, begin: 0, block: b"abcx".to_vec() }));
    assert!(matches!(action, DownloadAction::Abort(Error::PieceHashMismatch)));
    assert_eq!(d.phase(), Phase::Failed);
    assert!(matches!(d.step(DownloadEvent::Start), DownloadAction::Idle));
    assert_eq!(d.into_piece(), None);
}

#[test]
fn a_flipped_byte_in_any_block_fails_the_piece() {
    for at in [0usize, 20000, 39999] {
        let mut piece = big_piece();
        piece[at] ^= 1;
        let mut d = unchoked(5, 40000, big_hash());
        d.step(DownloadEvent::Received(Message::Piece {
            index: 5,
            begin: 0,
            block: piece[..16384].to_vec(),
        }));
        d.step(DownloadEvent::Received(Message::Piece {
            index: 5,
            begin: 16384,
            block: piece[16384..32768].to_vec(),
        }));
        let action = d.step(DownloadEvent::Received(Message::Piece {
            index: 5,
            begin: 32768,
            block: piece[32768..].to_vec(),
        }));
        assert!(matches!(action, DownloadAction::Abort(Error::PieceHashMismatch)));
        assert_eq!(d.phase(), Phase::Failed);
    }
}

#[test]
fn a_broken_connection_fails_the_download() {
    let mut fresh = PieceDownload::new(0, 4, HASH_ABCD.to_vec()).unwrap();
    assert!(matches!(
        fresh.step(DownloadEvent::Broken),
        DownloadAction::Abort(Error::ConnectionLost)
    ));
    assert_eq!(fresh.phase(), Phase::Failed);
    let mut waiting = PieceDownload::new(0, 4, HASH_ABCD.to_vec()).unwrap();
    waiting.step(DownloadEvent::Start);
    assert!(matches!(
        waiting.step(DownloadEvent::Broken),
        DownloadAction::Abort(Error::ConnectionLost)
    ));
    let mut requesting = unchoked(0, 4, HASH_ABCD.to_vec());
    assert!(matches!(
        requesting.step(DownloadEvent::Broken),
        DownloadAction::Abort(Error::ConnectionLost)
    ));
    assert_eq!(requesting.phase(), Phase::Failed);
}

#[test]
fn downloads_are_made_from_the_descriptor() {
    let meta = parse(&descriptor()).unwrap();
    let mut d = PieceDownload::for_piece(&meta, 1, HandshakeState::Matched).unwrap();
    d.step(DownloadEvent::Start);
    expect_request(d.step(DownloadEvent::Received(Message::Unchoke)), 1, 0, 6);
    let action = d.step(DownloadEvent::Received(Message::Piece {
        index: 1,
        begin: 0,
        block: b"efghij".to_vec(),
    }));
    assert!(matches!(action, DownloadAction::Finished));
    assert_eq!(d.into_piece(), Some(b"efghij".to_vec()));
    assert!(matches!(
        PieceDownload::for_piece(&meta, 2, HandshakeState::Matched),
        Err(Error::InvalidMetadata)
    ));
}

#[test]
fn no_download_without_a_matched_handshake() {
    let meta = parse(&descriptor()).unwrap();
    assert!(matches!(
        PieceDownload::for_piece(&meta, 0, HandshakeState::Mismatched),
        Err(Error::HandshakeFailed)
    ));
    for state in [HandshakeState::Init, HandshakeState::Sent, HandshakeState::Lost] {
        assert!(matches!(
            PieceDownload::for_piece(&meta, 0, state),
            Err(Error::ConnectionLost)
        ));
    }
}
