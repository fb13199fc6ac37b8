use torrent_client::error::Error;
use torrent_client::handshake::{
    build_handshake, handshake_step, validate_handshake, HandshakeAction, HandshakeEvent,
    HandshakeState,
};
use torrent_client::identity::{generate_peer_id, generate_tagged_peer_id};

const INFO_HASH: [u8; 20] = [
    1, 2, 3, 4, 5, 6, 7, 8, 9, 10, 11, 12, 13, 14, 15, 16, 17, 18, 19, 20,
];
const LOCAL_ID: [u8; 20] = [
    45, 65, 89, 48, 48, 48, 49, 45, 97, 98, 99, 100, 101, 102, 103, 104, 105, 106, 107, 108,
];
const REMOTE_ID: [u8; 20] = [
    200, 201, 202, 203, 204, 205, 206, 207, 208, 209, 210, 211, 212, 213, 214, 215, 216, 217, 218,
    219,
];

fn answer(info_hash: &[u8; 20]) -> Vec<u8> {
    build_handshake(info_hash, &REMOTE_ID)
}

#[test]
fn handshake_has_the_fixed_layout() {
    let message = build_handshake(&INFO_HASH, &LOCAL_ID);
    assert_eq!(message.len(), 68);
    assert_eq!(message[0], 19);
    assert_eq!(&message[1..20], b"BitTorrent protocol");
    assert_eq!(&message[20..28], &[0u8; 8]);
    assert_eq!(&message[28..48], &INFO_HASH);
    assert_eq!(&message[48..68], &LOCAL_ID);
}

#[test]
fn matching_answer_gives_the_remote_peer_id() {
    assert_eq!(validate_handshake(&answer(&INFO_HASH), &INFO_HASH), Ok(REMOTE_ID.to_vec()));
}

#[test]
fn answer_for_other_content_fails_the_handshake() {
    let mut other = INFO_HASH;
    other[19] ^= 1;
    assert_eq!(validate_handshake(&answer(&other), &INFO_HASH), Err(Error::HandshakeFailed));
}

#[test]
fn answer_of_the_wrong_length_is_a_lost_connection() {
    let full = answer(&INFO_HASH);
    assert_eq!(validate_handshake(&full[..67], &INFO_HASH), Err(Error::ConnectionLost));
    assert_eq!(validate_handshake(&[], &INFO_HASH), Err(Error::ConnectionLost));
    let mut long = full.clone();
    long.push(0);
    assert_eq!(validate_handshake(&long, &INFO_HASH), Err(Error::ConnectionLost));
}

#[test]
fn handshake_runs_from_init_to_matched() {
    let (state, action) =
        handshake_step(HandshakeState::Init, HandshakeEvent::Connected, &INFO_HASH, &LOCAL_ID);
    assert_eq!(state, HandshakeState::Sent);
    match action {
        HandshakeAction::Send(bytes) => assert_eq!(bytes, build_handshake(&INFO_HASH, &LOCAL_ID)),
        other => panic!("{:?}", other),
    }
    let (state, action) = handshake_step(
        state,
        HandshakeEvent::Answer(answer(&INFO_HASH)),
        &INFO_HASH,
        &LOCAL_ID,
    );
    assert_eq!(state, HandshakeState::Matched);
    match action {
        HandshakeAction::Open(id) => assert_eq!(id, REMOTE_ID.to_vec()),
        other => panic!("{:?}", other),
    }
}

#[test]
fn mismatch_is_final() {
    let mut other = INFO_HASH;
    other[0] = 99;
    let (state, action) = handshake_step(
        HandshakeState::Sent,
        HandshakeEvent::Answer(answer(&other)),
        &INFO_HASH,
        &LOCAL_ID,
    );
    assert_eq!(state, HandshakeState::Mismatched);
    assert!(matches!(action, HandshakeAction::Abort(Error::HandshakeFailed)));
    let events = vec![
        HandshakeEvent::Connected,
        HandshakeEvent::Answer(answer(&INFO_HASH)),
        HandshakeEvent::Broken,
    ];
    for event in events {
        let (next, action) = handshake_step(state, event, &INFO_HASH, &LOCAL_ID);
        assert_eq!(next, HandshakeState::Mismatched);
        assert!(matches!(action, HandshakeAction::Abort(Error::HandshakeFailed)));
    }
}

#[test]
fn broken_connection_loses_the_handshake() {
    let (state, action) =
        handshake_step(HandshakeState::Sent, HandshakeEvent::Broken, &INFO_HASH, &LOCAL_ID);
    assert_eq!(state, HandshakeState::Lost);
    assert!(matches!(action, HandshakeAction::Abort(Error::ConnectionLost)));
    let (state, action) = handshake_step(
        HandshakeState::Sent,
        HandshakeEvent::Answer(vec![19, 1, 2]),
        &INFO_HASH,
        &LOCAL_ID,
    );
    assert_eq!(state, HandshakeState::Lost);
    assert!(matches!(action, HandshakeAction::Abort(Error::ConnectionLost)));
}

#[test]
fn events_out_of_place_send_nothing() {
    let (state, action) = handshake_step(
        HandshakeState::Init,
        HandshakeEvent::Answer(answer(&INFO_HASH)),
        &INFO_HASH,
        &LOCAL_ID,
    );
    assert_eq!(state, HandshakeState::Init);
    assert!(matches!(action, HandshakeAction::Abort(Error::ConnectionLost)));
    let (state, action) =
        handshake_step(HandshakeState::Matched, HandshakeEvent::Connected, &INFO_HASH, &LOCAL_ID);
    assert_eq!(state, HandshakeState::Matched);
    assert!(matches!(action, HandshakeAction::Abort(Error::ConnectionLost)));
}

#[test]
fn peer_ids_have_twenty_bytes() {
    assert_eq!(generate_peer_id().len(), 20);
    let tagged = generate_tagged_peer_id();
    assert_eq!(tagged.len(), 20);
    assert_eq!(&tagged[..8], b"-AY0001-");
    assert!(tagged[8..].iter().all(|b| b.is_ascii_alphanumeric()));
}
