use crate::bytes::{append_bytes, bytes_equal};
use crate::error::Error;
use vstd::prelude::*;
use vstd::slice::{slice_subrange, slice_to_vec};

verus! {

/// The name of the protocol as the handshake carries it: the nineteen
/// bytes of `BitTorrent protocol`.
pub open spec fn protocol_name() -> Seq<u8> {
    seq![
        66u8, 105u8, 116u8, 84u8, 111u8, 114u8, 114u8, 101u8, 110u8, 116u8, 32u8, 112u8, 114u8,
        111u8, 116u8, 111u8, 99u8, 111u8, 108u8,
    ]
}

/// The handshake message: the length of the protocol's name, the name,
/// eight reserved zero bytes, the content identifier, the sender's peer
/// id. With identifier and id of twenty bytes each it has 68 bytes.
pub open spec fn spec_handshake(info_hash: Seq<u8>, peer_id: Seq<u8>) -> Seq<u8> {
    seq![19u8] + protocol_name() + Seq::new(8, |i: int| 0u8) + info_hash + peer_id
}

/// What a peer's answer to the handshake comes to: the peer's id where
/// the answer has 68 bytes and carries the content identifier
/// `info_hash`. An answer of another length is a broken read; one for
/// another identifier fails the handshake.
pub open spec fn spec_validate_handshake(response: Seq<u8>, info_hash: Seq<u8>) -> Result<
    Seq<u8>,
    Error,
> {
    if response.len() != 68 {
        Err(Error::ConnectionLost)
    } else if response.subrange(28, 48) != info_hash {
        Err(Error::HandshakeFailed)
    } else {
        Ok(response.subrange(48, 68))
    }
}

/// Builds the 68 bytes of the handshake message.
pub fn build_handshake(info_hash: &[u8; 20], peer_id: &[u8; 20]) -> (message: Vec<u8>)
    ensures
        message@ == spec_handshake(info_hash@, peer_id@),
        message@.len() == 68,
{
    let name: [u8; 19] = [
        66, 105, 116, 84, 111, 114, 114, 101, 110, 116, 32, 112, 114, 111, 116, 111, 99, 111, 108,
    ];
    assert(name@ =~= protocol_name());
    let mut message: Vec<u8> = Vec::new();
    message.push(19);
    append_bytes(&mut message, name.as_slice());
    let mut i: usize = 0;
    while i < 8
        invariant
            i <= 8,
            message@ == seq![19u8] + protocol_name() + Seq::new(i as nat, |k: int| 0u8),
        decreases 8 - i,
    {
        message.push(0);
        assert(message@ =~= seq![19u8] + protocol_name() + Seq::new((i + 1) as nat, |k: int| 0u8));
        i = i + 1;
    }
    append_bytes(&mut message, info_hash.as_slice());
    append_bytes(&mut message, peer_id.as_slice());
    message
}

/// Checks a peer's answer to the handshake and takes the peer's id out
/// of it.
pub fn validate_handshake(response: &[u8], info_hash: &[u8; 20]) -> (r: Result<Vec<u8>, Error>)
    ensures
        match r {
            Ok(remote_id) => spec_validate_handshake(response@, info_hash@) == Ok::<Seq<u8>, Error>(
                remote_id@,
            ) && remote_id@.len() == 20,
            Err(e) => spec_validate_handshake(response@, info_hash@) == Err::<Seq<u8>, Error>(e),
        },
{
    if response.len() != 68 {
        return Err(Error::ConnectionLost);
    }
    if !bytes_equal(slice_subrange(response, 28, 48), info_hash.as_slice()) {
        return Err(Error::HandshakeFailed);
    }
    Ok(slice_to_vec(slice_subrange(response, 48, 68)))
}

/// Where a handshake stands.
#[derive(Clone, Copy, Debug, PartialEq, Eq, Structural)]
pub enum HandshakeState {
    /// Nothing was sent yet.
    Init,
    /// The handshake message is out; the peer's answer is awaited.
    Sent,
    /// The peer answered for the same content: messages may be exchanged.
    Matched,
    /// The peer answered for other content. Nothing may follow.
    Mismatched,
    /// The connection broke before an answer of 68 bytes was there.
    Lost,
}

/// What happened on the connection.
#[derive(Debug)]
pub enum HandshakeEvent {
    /// The connection is open.
    Connected,
    /// The peer's answer was read.
    Answer(Vec<u8>),
    /// Reading or writing failed.
    Broken,
}

/// What the connection's owner has to do next.
#[derive(Debug)]
pub enum HandshakeAction {
    /// Write these bytes, then read exactly 68 bytes and hand them in.
    Send(Vec<u8>),
    /// The handshake is done; this is the peer's id.
    Open(Vec<u8>),
    /// Close the connection and report this error.
    Abort(Error),
}

/// The state that follows `state` on an event; `answer` is what the
/// peer's answer came to, where the event was an answer.
pub open spec fn spec_handshake_next(
    state: HandshakeState,
    event: HandshakeEvent,
    info_hash: Seq<u8>,
) -> HandshakeState {
    match state {
        HandshakeState::Init => match event {
            HandshakeEvent::Connected => HandshakeState::Sent,
            HandshakeEvent::Answer(_) => HandshakeState::Init,
            HandshakeEvent::Broken => HandshakeState::Lost,
        },
        HandshakeState::Sent => match event {
            HandshakeEvent::Connected => HandshakeState::Sent,
            HandshakeEvent::Answer(bytes) => match spec_validate_handshake(bytes@, info_hash) {
                Ok(_) => HandshakeState::Matched,
                Err(Error::HandshakeFailed) => HandshakeState::Mismatched,
                Err(_) => HandshakeState::Lost,
            },
            HandshakeEvent::Broken => HandshakeState::Lost,
        },
        HandshakeState::Matched => HandshakeState::Matched,
        HandshakeState::Mismatched => HandshakeState::Mismatched,
        HandshakeState::Lost => HandshakeState::Lost,
    }
}

/// What is to be done on an event in `state`, told by the state that
/// follows: the message goes out when the handshake starts, the peer's id
/// comes out when its answer matches, and everything else ends the
/// handshake with the error of the state it ends in. An event that does
/// not belong where the handshake stands is an error of the caller and
/// ends it as a broken connection does.
pub open spec fn spec_handshake_action_ok(
    state: HandshakeState,
    event: HandshakeEvent,
    info_hash: Seq<u8>,
    peer_id: Seq<u8>,
    action: HandshakeAction,
) -> bool {
    match (state, event) {
        (HandshakeState::Init, HandshakeEvent::Connected) => action matches HandshakeAction::Send(
            bytes,
        ) && bytes@ == spec_handshake(info_hash, peer_id),
        (HandshakeState::Sent, HandshakeEvent::Answer(bytes)) => match spec_validate_handshake(
            bytes@,
            info_hash,
        ) {
            Ok(remote_id) => action matches HandshakeAction::Open(id) && id@ == remote_id,
            Err(e) => action matches HandshakeAction::Abort(x) && x == e,
        },
        (HandshakeState::Mismatched, _) => action matches HandshakeAction::Abort(x) && x
            == Error::HandshakeFailed,
        _ => action matches HandshakeAction::Abort(x) && x == Error::ConnectionLost,
    }
}

/// One step of the handshake: takes where it stands and what happened,
/// and gives where it stands now and what to do.
pub fn handshake_step(
    state: HandshakeState,
    event: HandshakeEvent,
    info_hash: &[u8; 20],
    peer_id: &[u8; 20],
) -> (r: (HandshakeState, HandshakeAction))
    ensures
        r.0 == spec_handshake_next(state, event, info_hash@),
        spec_handshake_action_ok(state, event, info_hash@, peer_id@, r.1),
{
    match state {
        HandshakeState::Init => match event {
            HandshakeEvent::Connected => (
                HandshakeState::Sent,
                HandshakeAction::Send(build_handshake(info_hash, peer_id)),
            ),
            HandshakeEvent::Answer(_) => (
                HandshakeState::Init,
                HandshakeAction::Abort(Error::ConnectionLost),
            ),
            HandshakeEvent::Broken => (
                HandshakeState::Lost,
                HandshakeAction::Abort(Error::ConnectionLost),
            ),
        },
        HandshakeState::Sent => match event {
            HandshakeEvent::Connected => (
                HandshakeState::Sent,
                HandshakeAction::Abort(Error::ConnectionLost),
            ),
            HandshakeEvent::Answer(bytes) => match validate_handshake(bytes.as_slice(), info_hash) {
                Ok(remote_id) => (HandshakeState::Matched, HandshakeAction::Open(remote_id)),
                Err(e) => match e {
                    Error::HandshakeFailed => (
                        HandshakeState::Mismatched,
                        HandshakeAction::Abort(Error::HandshakeFailed),
                    ),
                    _ => (HandshakeState::Lost, HandshakeAction::Abort(e)),
                },
            },
            HandshakeEvent::Broken => (
                HandshakeState::Lost,
                HandshakeAction::Abort(Error::ConnectionLost),
            ),
        },
        HandshakeState::Matched => (
            HandshakeState::Matched,
            HandshakeAction::Abort(Error::ConnectionLost),
        ),
        HandshakeState::Mismatched => (
            HandshakeState::Mismatched,
            HandshakeAction::Abort(Error::HandshakeFailed),
        ),
        HandshakeState::Lost => (HandshakeState::Lost, HandshakeAction::Abort(Error::ConnectionLost)),
    }
}

/// An answer for other content fails the handshake: it ends in the
/// state from which nothing follows, and the error is `HandshakeFailed`.
pub proof fn lemma_other_content_fails(
    answer: Vec<u8>,
    info_hash: Seq<u8>,
    peer_id: Seq<u8>,
    action: HandshakeAction,
)
    requires
        answer@.len() == 68,
        answer@.subrange(28, 48) != info_hash,
        spec_handshake_action_ok(
            HandshakeState::Sent,
            HandshakeEvent::Answer(answer),
            info_hash,
            peer_id,
            action,
        ),
    ensures
        spec_validate_handshake(answer@, info_hash) == Err::<Seq<u8>, Error>(Error::HandshakeFailed),
        spec_handshake_next(HandshakeState::Sent, HandshakeEvent::Answer(answer), info_hash)
            == HandshakeState::Mismatched,
        action matches HandshakeAction::Abort(e) && e == Error::HandshakeFailed,
{
}

/// After a mismatch nothing follows: whatever happens, the handshake
/// stays failed, and the only thing to do is to end with
/// `HandshakeFailed`. Nothing is sent and no peer id comes out.
pub proof fn lemma_mismatch_is_final(
    event: HandshakeEvent,
    info_hash: Seq<u8>,
    peer_id: Seq<u8>,
    action: HandshakeAction,
)
    requires
        spec_handshake_action_ok(HandshakeState::Mismatched, event, info_hash, peer_id, action),
    ensures
        spec_handshake_next(HandshakeState::Mismatched, event, info_hash)
            == HandshakeState::Mismatched,
        action matches HandshakeAction::Abort(e) && e == Error::HandshakeFailed,
{
}

/// A peer that sends back the handshake it would send for the same
/// content is accepted, and its id is read out.
pub proof fn lemma_handshake_accepts_itself(info_hash: Seq<u8>, peer_id: Seq<u8>)
    requires
        info_hash.len() == 20,
        peer_id.len() == 20,
    ensures
        spec_handshake(info_hash, peer_id).len() == 68,
        spec_validate_handshake(spec_handshake(info_hash, peer_id), info_hash) == Ok::<
            Seq<u8>,
            Error,
        >(peer_id),
{
    let h = spec_handshake(info_hash, peer_id);
    assert(h.subrange(28, 48) =~= info_hash);
    assert(h.subrange(48, 68) =~= peer_id);
}

} // verus!
