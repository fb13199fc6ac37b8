use crate::digest::{hash_matches, sha1_digest};
use crate::bytes::append_bytes;
use crate::error::Error;
use crate::handshake::HandshakeState;
use crate::message::{Message, MessageView};
use crate::metadata::{spec_piece_size, MetadataView, TorrentMetadata};
use vstd::prelude::*;

verus! {

/// The most that one request asks for: 16 KiB.
pub const BLOCK_SIZE: u32 = 16384;

/// The length of the block that starts at `offset` in a piece of `size`
/// bytes: 16 KiB, or what is left of the piece where that is less.
pub open spec fn block_length(size: nat, offset: nat) -> nat {
    if size - offset < 16384 {
        (size - offset) as nat
    } else {
        16384
    }
}

/// Where the download of a piece stands.
#[derive(Clone, Copy, Debug, PartialEq, Eq, Structural)]
pub enum Phase {
    /// The handshake is done; nothing was sent since.
    Handshaken,
    /// `interested` is out; the peer's `unchoke` is awaited.
    WaitUnchoke,
    /// A request is out; its block is awaited.
    Requesting,
    /// All blocks are there and the piece has the hash it should have.
    Complete,
    /// The connection broke or the piece has another hash.
    Failed,
}

/// Mathematical model of the download of a piece.
pub struct DownloadView {
    pub index: u32,
    pub size: u32,
    pub expected: Seq<u8>,
    pub phase: Phase,
    pub data: Seq<u8>,
}

/// The download of one piece from one peer: which piece, how long it is,
/// what it has to hash to, how far the download is, and the blocks that
/// have arrived, in the order of their requests. There is one attempt:
/// a failed piece is not asked for again, and nothing here counts time.
#[derive(Debug)]
pub struct PieceDownload {
    index: u32,
    size: u32,
    expected: Vec<u8>,
    phase: Phase,
    data: Vec<u8>,
}

impl View for PieceDownload {
    type V = DownloadView;

    closed spec fn view(&self) -> DownloadView {
        DownloadView {
            index: self.index,
            size: self.size,
            expected: self.expected@,
            phase: self.phase,
            data: self.data@,
        }
    }
}

/// What happened on the connection.
#[derive(Debug)]
pub enum DownloadEvent {
    /// The download may begin.
    Start,
    /// A message arrived.
    Received(Message),
    /// Reading or writing failed.
    Broken,
}

pub enum DownloadEventView {
    Start,
    Received(MessageView),
    Broken,
}

impl View for DownloadEvent {
    type V = DownloadEventView;

    open spec fn view(&self) -> DownloadEventView {
        match self {
            DownloadEvent::Start => DownloadEventView::Start,
            DownloadEvent::Received(m) => DownloadEventView::Received(m@),
            DownloadEvent::Broken => DownloadEventView::Broken,
        }
    }
}

/// What the connection's owner has to do next.
#[derive(Debug)]
pub enum DownloadAction {
    /// Send this message, then read a message and hand it in.
    Send(Message),
    /// Read another message and hand it in.
    Wait,
    /// The piece is complete and verified: take it.
    Finished,
    /// Give the piece up with this error.
    Abort(Error),
    /// Nothing: the event does not belong where the download stands.
    Idle,
}

pub enum DownloadActionView {
    Send(MessageView),
    Wait,
    Finished,
    Abort(Error),
    Idle,
}

impl View for DownloadAction {
    type V = DownloadActionView;

    open spec fn view(&self) -> DownloadActionView {
        match self {
            DownloadAction::Send(m) => DownloadActionView::Send(m@),
            DownloadAction::Wait => DownloadActionView::Wait,
            DownloadAction::Finished => DownloadActionView::Finished,
            DownloadAction::Abort(e) => DownloadActionView::Abort(*e),
            DownloadAction::Idle => DownloadActionView::Idle,
        }
    }
}

/// The state is one that a download can be in: the piece is not empty,
/// no more has arrived than the piece holds, something is missing while
/// the download goes on, nothing has arrived before the first request,
/// and a complete piece is whole and has the hash it should have.
pub open spec fn valid(s: DownloadView) -> bool {
    &&& s.size > 0
    &&& s.data.len() <= s.size
    &&& (s.phase == Phase::Handshaken || s.phase == Phase::WaitUnchoke) ==> s.data.len() == 0
    &&& s.phase == Phase::Requesting ==> s.data.len() < s.size
    &&& s.phase == Phase::Complete ==> s.data.len() == s.size && sha1_digest(s.data) == s.expected
}

/// The request for the next block: for the piece, from where the data
/// that have arrived end, of the length of the block that starts there.
pub open spec fn next_request(s: DownloadView) -> MessageView {
    MessageView::Request {
        index: s.index,
        begin: s.data.len() as u32,
        length: block_length(s.size as nat, s.data.len()) as u32,
    }
}

/// The message is the answer to the request that is out: a block of the
/// piece, from the offset asked for, of the length asked for.
pub open spec fn answers_request(s: DownloadView, m: MessageView) -> bool {
    m matches MessageView::Piece { index, begin, block } && index == s.index && begin
        == s.data.len() && block.len() == block_length(s.size as nat, s.data.len())
}

/// The download with `phase` in place of its phase.
pub open spec fn in_phase(s: DownloadView, phase: Phase) -> DownloadView {
    DownloadView { phase, ..s }
}

/// The transition function of the download: the next state and what is
/// to be done, for every state and every event.
///
/// The download starts by sending `interested`. While it waits for
/// `unchoke`, and while it waits for a block, every message but the
/// awaited one is passed over. Each block is appended and the next one
/// requested; with the last block the piece is hashed, and it is complete
/// or, with another hash, failed. A broken connection fails the download
/// wherever it stands, unless it has ended already.
pub open spec fn spec_step(s: DownloadView, e: DownloadEventView) -> (DownloadView, DownloadActionView) {
    match s.phase {
        Phase::Handshaken => match e {
            DownloadEventView::Start => (
                in_phase(s, Phase::WaitUnchoke),
                DownloadActionView::Send(MessageView::Interested),
            ),
            DownloadEventView::Received(_) => (s, DownloadActionView::Idle),
            DownloadEventView::Broken => (
                in_phase(s, Phase::Failed),
                DownloadActionView::Abort(Error::ConnectionLost),
            ),
        },
        Phase::WaitUnchoke => match e {
            DownloadEventView::Start => (s, DownloadActionView::Wait),
            DownloadEventView::Received(m) => if m is Unchoke {
                (in_phase(s, Phase::Requesting), DownloadActionView::Send(next_request(s)))
            } else {
                (s, DownloadActionView::Wait)
            },
            DownloadEventView::Broken => (
                in_phase(s, Phase::Failed),
                DownloadActionView::Abort(Error::ConnectionLost),
            ),
        },
        Phase::Requesting => match e {
            DownloadEventView::Start => (s, DownloadActionView::Wait),
            DownloadEventView::Received(m) => if answers_request(s, m) {
                let longer = DownloadView { data: s.data + m->Piece_block, ..s };
                if longer.data.len() < s.size {
                    (longer, DownloadActionView::Send(next_request(longer)))
                } else if sha1_digest(longer.data) == s.expected {
                    (in_phase(longer, Phase::Complete), DownloadActionView::Finished)
                } else {
                    (
                        in_phase(longer, Phase::Failed),
                        DownloadActionView::Abort(Error::PieceHashMismatch),
                    )
                }
            } else {
                (s, DownloadActionView::Wait)
            },
            DownloadEventView::Broken => (
                in_phase(s, Phase::Failed),
                DownloadActionView::Abort(Error::ConnectionLost),
            ),
        },
        Phase::Complete => (s, DownloadActionView::Finished),
        Phase::Failed => (s, DownloadActionView::Idle),
    }
}

/// The download of the piece `index` of a descriptor, as it stands after
/// a handshake in state `handshake`. There is none after a handshake
/// that did not match, for a piece that the descriptor does not have, or
/// for a piece too long for the offsets of the protocol.
pub open spec fn spec_for_piece(m: MetadataView, index: int, handshake: HandshakeState) -> Result<
    DownloadView,
    Error,
> {
    if handshake == HandshakeState::Mismatched {
        Err(Error::HandshakeFailed)
    } else if handshake != HandshakeState::Matched {
        Err(Error::ConnectionLost)
    } else {
        match spec_piece_size(m, index) {
            Err(e) => Err(e),
            Ok(size) => if size > u32::MAX || index > u32::MAX {
                Err(Error::InvalidMetadata)
            } else {
                Ok(
                    DownloadView {
                        index: index as u32,
                        size: size as u32,
                        expected: m.pieces.subrange(20 * index, 20 * index + 20),
                        phase: Phase::Handshaken,
                        data: Seq::empty(),
                    },
                )
            },
        }
    }
}

impl PieceDownload {
    /// Whether the state is one that a download can be in.
    pub closed spec fn wf(&self) -> bool {
        valid(self@)
    }

    /// The download of a piece of `size` bytes that has to hash to
    /// `expected`, before anything was sent. A piece is never empty.
    pub fn new(index: u32, size: u32, expected: Vec<u8>) -> (r: Result<PieceDownload, Error>)
        ensures
            match r {
                Ok(d) => d.wf() && size > 0 && d@ == (DownloadView {
                    index,
                    size,
                    expected: expected@,
                    phase: Phase::Handshaken,
                    data: Seq::empty(),
                }),
                Err(e) => e == Error::InvalidMetadata && size == 0,
            },
    {
        if size == 0 {
            return Err(Error::InvalidMetadata);
        }
        Ok(PieceDownload { index, size, expected, phase: Phase::Handshaken, data: Vec::new() })
    }

    /// The download of the piece `index` of `meta` over a connection
    /// whose handshake stands at `handshake`.
    pub fn for_piece(meta: &TorrentMetadata, index: usize, handshake: HandshakeState) -> (r: Result<
        PieceDownload,
        Error,
    >)
        ensures
            match r {
                Ok(d) => d.wf() && spec_for_piece(meta@, index as int, handshake) == Ok::<
                    DownloadView,
                    Error,
                >(d@),
                Err(e) => spec_for_piece(meta@, index as int, handshake) == Err::<
                    DownloadView,
                    Error,
                >(e),
            },
    {
        match handshake {
            HandshakeState::Matched => {},
            HandshakeState::Mismatched => {
                return Err(Error::HandshakeFailed);
            },
            _ => {
                return Err(Error::ConnectionLost);
            },
        }
        let size: u64 = match meta.piece_size(index) {
            Ok(size) => size,
            Err(e) => {
                return Err(e);
            },
        };
        if size > 0xffff_ffff || index > 0xffff_ffff {
            return Err(Error::InvalidMetadata);
        }
        match meta.piece_hash(index) {
            Some(expected) => Ok(
                PieceDownload {
                    index: index as u32,
                    size: size as u32,
                    expected,
                    phase: Phase::Handshaken,
                    data: Vec::new(),
                },
            ),
            None => Err(Error::InvalidMetadata),
        }
    }

    /// Where the download stands.
    pub fn phase(&self) -> (phase: Phase)
        ensures
            phase == self@.phase,
    {
        self.phase
    }

    /// The bytes that have arrived.
    pub fn data(&self) -> (data: &[u8])
        ensures
            data@ == self@.data,
    {
        self.data.as_slice()
    }

    /// The piece, where the download is complete: as long as the piece
    /// has to be, and with the hash it has to have.
    pub fn into_piece(self) -> (r: Option<Vec<u8>>)
        requires
            self.wf(),
        ensures
            match r {
                Some(piece) => self@.phase == Phase::Complete && piece@ == self@.data && piece@.len()
                    == self@.size && sha1_digest(piece@) == self@.expected,
                None => self@.phase != Phase::Complete,
            },
    {
        match self.phase {
            Phase::Complete => Some(self.data),
            _ => None,
        }
    }

    fn request(&self) -> (m: Message)
        requires
            self.wf(),
            self@.data.len() < self@.size,
        ensures
            m@ == next_request(self@),
    {
        let begin: u32 = self.data.len() as u32;
        let left: u32 = self.size - begin;
        let length: u32 = if left < BLOCK_SIZE {
            left
        } else {
            BLOCK_SIZE
        };
        Message::Request { index: self.index, begin, length }
    }

    /// One step of the download: takes what happened, moves the download
    /// on, and says what to do.
    pub fn step(&mut self, event: DownloadEvent) -> (action: DownloadAction)
        requires
            old(self).wf(),
        ensures
            final(self).wf(),
            (final(self)@, action@) == spec_step(old(self)@, event@),
    {
        match self.phase {
            Phase::Handshaken => match event {
                DownloadEvent::Start => {
                    self.phase = Phase::WaitUnchoke;
                    DownloadAction::Send(Message::Interested)
                },
                DownloadEvent::Received(_) => DownloadAction::Idle,
                DownloadEvent::Broken => {
                    self.phase = Phase::Failed;
                    DownloadAction::Abort(Error::ConnectionLost)
                },
            },
            Phase::WaitUnchoke => match event {
                DownloadEvent::Start => DownloadAction::Wait,
                DownloadEvent::Received(m) => match m {
                    Message::Unchoke => {
                        let request: Message = self.request();
                        self.phase = Phase::Requesting;
                        DownloadAction::Send(request)
                    },
                    _ => DownloadAction::Wait,
                },
                DownloadEvent::Broken => {
                    self.phase = Phase::Failed;
                    DownloadAction::Abort(Error::ConnectionLost)
                },
            },
            Phase::Requesting => match event {
                DownloadEvent::Start => DownloadAction::Wait,
                DownloadEvent::Received(m) => match m {
                    Message::Piece { index, begin, block } => {
                        let have: u32 = self.data.len() as u32;
                        let left: u32 = self.size - have;
                        let wanted: u32 = if left < BLOCK_SIZE {
                            left
                        } else {
                            BLOCK_SIZE
                        };
                        if index == self.index && begin == have && block.len() == wanted as usize {
                            append_bytes(&mut self.data, block.as_slice());
                            if self.data.len() < self.size as usize {
                                DownloadAction::Send(self.request())
                            } else if hash_matches(self.data.as_slice(), self.expected.as_slice()) {
                                self.phase = Phase::Complete;
                                DownloadAction::Finished
                            } else {
                                self.phase = Phase::Failed;
                                DownloadAction::Abort(Error::PieceHashMismatch)
                            }
                        } else {
                            DownloadAction::Wait
                        }
                    },
                    _ => DownloadAction::Wait,
                },
                DownloadEvent::Broken => {
                    self.phase = Phase::Failed;
                    DownloadAction::Abort(Error::ConnectionLost)
                },
            },
            Phase::Complete => DownloadAction::Finished,
            Phase::Failed => DownloadAction::Idle,
        }
    }
}

/// Checks a piece against the hash it has to have.
pub fn verify_piece(data: &[u8], expected: &[u8]) -> (r: Result<(), Error>)
    ensures
        r is Ok <==> sha1_digest(data@) == expected@,
        r matches Err(e) ==> e == Error::PieceHashMismatch,
{
    if hash_matches(data, expected) {
        Ok(())
    } else {
        Err(Error::PieceHashMismatch)
    }
}

/// The block of `piece` that a download in state `s` is waiting for.
pub open spec fn awaited_block(s: DownloadView, piece: Seq<u8>) -> MessageView {
    MessageView::Piece {
        index: s.index,
        begin: s.data.len() as u32,
        block: piece.subrange(
            s.data.len() as int,
            (s.data.len() + block_length(s.size as nat, s.data.len())) as int,
        ),
    }
}

/// Where a download ends that is handed the blocks of `piece`, each as
/// the answer to the request that is out.
pub open spec fn fed_with(s: DownloadView, piece: Seq<u8>) -> DownloadView
    decreases s.size - s.data.len(),
{
    if s.phase == Phase::Requesting && valid(s) && piece.len() == s.size {
        fed_with(spec_step(s, DownloadEventView::Received(awaited_block(s, piece))).0, piece)
    } else {
        s
    }
}

/// Every step leaves a state that a download can be in.
pub proof fn lemma_step_keeps_valid(s: DownloadView, e: DownloadEventView)
    requires
        valid(s),
    ensures
        valid(spec_step(s, e).0),
        spec_step(s, e).0.index == s.index,
        spec_step(s, e).0.size == s.size,
        spec_step(s, e).0.expected == s.expected,
        s.data.is_prefix_of(spec_step(s, e).0.data),
{
}

/// A download that gets the blocks of a piece in the order of its
/// requests holds that piece in the end; it is complete where the piece
/// has the hash it should have, and failed where it has another.
pub proof fn lemma_blocks_in_order_assemble(s: DownloadView, piece: Seq<u8>)
    requires
        valid(s),
        s.phase == Phase::Requesting,
        piece.len() == s.size,
        s.data == piece.take(s.data.len() as int),
    ensures
        fed_with(s, piece).data == piece,
        fed_with(s, piece).phase == (if sha1_digest(piece) == s.expected {
            Phase::Complete
        } else {
            Phase::Failed
        }),
    decreases s.size - s.data.len(),
{
    let m = awaited_block(s, piece);
    let block = m->Piece_block;
    let next = spec_step(s, DownloadEventView::Received(m)).0;
    assert(answers_request(s, m));
    assert(s.data + block =~= piece.take((s.data.len() + block.len()) as int));
    if next.data.len() < s.size {
        lemma_blocks_in_order_assemble(next, piece);
    } else {
        reveal_with_fuel(fed_with, 2);
        assert(piece.take(piece.len() as int) =~= piece);
        assert(next.data == piece);
        assert(fed_with(next, piece) == next);
    }
}

} // verus!
