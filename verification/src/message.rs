use crate::bytes::append_bytes;
use crate::error::Error;
use vstd::prelude::*;
use vstd::slice::{slice_subrange, slice_to_vec};

verus! {

/// Mathematical model of a peer message.
pub enum MessageView {
    KeepAlive,
    Unchoke,
    Interested,
    Have { index: u32 },
    Bitfield { bits: Seq<u8> },
    Request { index: u32, begin: u32, length: u32 },
    Piece { index: u32, begin: u32, block: Seq<u8> },
    Other { id: u8, payload: Seq<u8> },
}

/// A message of the peer protocol after the handshake.
#[derive(Debug, Clone, PartialEq, Eq)]
pub enum Message {
    /// The message of length zero: no id, no payload.
    KeepAlive,
    /// Id 1: the peer allows requests.
    Unchoke,
    /// Id 2: this side wants to download.
    Interested,
    /// Id 4: the peer has the piece `index`.
    Have { index: u32 },
    /// Id 5: the pieces that the peer has, one bit each.
    Bitfield { bits: Vec<u8> },
    /// Id 6: asks for `length` bytes of the piece `index` from `begin` on.
    Request { index: u32, begin: u32, length: u32 },
    /// Id 7: the bytes of the piece `index` from `begin` on.
    Piece { index: u32, begin: u32, block: Vec<u8> },
    /// Any other id, with what came with it.
    Other { id: u8, payload: Vec<u8> },
}

impl View for Message {
    type V = MessageView;

    open spec fn view(&self) -> MessageView {
        match self {
            Message::KeepAlive => MessageView::KeepAlive,
            Message::Unchoke => MessageView::Unchoke,
            Message::Interested => MessageView::Interested,
            Message::Have { index } => MessageView::Have { index: *index },
            Message::Bitfield { bits } => MessageView::Bitfield { bits: bits@ },
            Message::Request { index, begin, length } => MessageView::Request {
                index: *index,
                begin: *begin,
                length: *length,
            },
            Message::Piece { index, begin, block } => MessageView::Piece {
                index: *index,
                begin: *begin,
                block: block@,
            },
            Message::Other { id, payload } => MessageView::Other { id: *id, payload: payload@ },
        }
    }
}

/// The four bytes of `n`, the most significant first.
pub open spec fn be32(n: u32) -> Seq<u8> {
    seq![
        (n / 0x100_0000) as u8,
        (n / 0x1_0000 % 0x100) as u8,
        (n / 0x100 % 0x100) as u8,
        (n % 0x100) as u8,
    ]
}

/// The number that the four bytes of `s` from `at` on stand for, the most
/// significant first.
pub open spec fn be32_value(s: Seq<u8>, at: int) -> int {
    s[at] * 0x100_0000 + s[at + 1] * 0x1_0000 + s[at + 2] * 0x100 + s[at + 3]
}

pub proof fn lemma_be32_value(n: u32)
    ensures
        be32(n).len() == 4,
        be32_value(be32(n), 0) == n,
{
}

/// The message is in its own variant: `Other` stands for no id that has
/// a variant.
pub open spec fn well_formed(m: MessageView) -> bool {
    m matches MessageView::Other { id, .. } ==> id != 1 && id != 2 && id != 4 && id != 5 && id != 6
        && id != 7
}

/// What follows the length prefix: nothing for a keep-alive, else the id
/// and the payload that belongs to it.
pub open spec fn message_body(m: MessageView) -> Seq<u8> {
    match m {
        MessageView::KeepAlive => Seq::empty(),
        MessageView::Unchoke => seq![1u8],
        MessageView::Interested => seq![2u8],
        MessageView::Have { index } => seq![4u8] + be32(index),
        MessageView::Bitfield { bits } => seq![5u8] + bits,
        MessageView::Request { index, begin, length } => seq![6u8] + be32(index) + be32(begin)
            + be32(length),
        MessageView::Piece { index, begin, block } => seq![7u8] + be32(index) + be32(begin) + block,
        MessageView::Other { id, payload } => seq![id] + payload,
    }
}

/// The message on the wire: the length of its body in four bytes, then
/// the body.
pub open spec fn message_frame(m: MessageView) -> Seq<u8> {
    be32(message_body(m).len() as u32) + message_body(m)
}

/// The message that a body stands for. A body of length zero is a
/// keep-alive. A body whose id has a variant must have the payload of
/// that variant.
pub open spec fn spec_parse_message(s: Seq<u8>) -> Result<MessageView, Error> {
    if s.len() == 0 {
        Ok(MessageView::KeepAlive)
    } else {
        let id = s[0];
        let payload = s.skip(1);
        if id == 1 {
            if payload.len() == 0 {
                Ok(MessageView::Unchoke)
            } else {
                Err(Error::MalformedInput)
            }
        } else if id == 2 {
            if payload.len() == 0 {
                Ok(MessageView::Interested)
            } else {
                Err(Error::MalformedInput)
            }
        } else if id == 4 {
            if payload.len() == 4 {
                Ok(MessageView::Have { index: be32_value(payload, 0) as u32 })
            } else {
                Err(Error::MalformedInput)
            }
        } else if id == 5 {
            Ok(MessageView::Bitfield { bits: payload })
        } else if id == 6 {
            if payload.len() == 12 {
                Ok(
                    MessageView::Request {
                        index: be32_value(payload, 0) as u32,
                        begin: be32_value(payload, 4) as u32,
                        length: be32_value(payload, 8) as u32,
                    },
                )
            } else {
                Err(Error::MalformedInput)
            }
        } else if id == 7 {
            if payload.len() >= 8 {
                Ok(
                    MessageView::Piece {
                        index: be32_value(payload, 0) as u32,
                        begin: be32_value(payload, 4) as u32,
                        block: payload.skip(8),
                    },
                )
            } else {
                Err(Error::MalformedInput)
            }
        } else {
            Ok(MessageView::Other { id, payload })
        }
    }
}

/// The message that `s` starts with and the number of bytes it takes.
/// Bytes that end before the frame does are a short read.
pub open spec fn spec_decode_frame(s: Seq<u8>) -> Result<(MessageView, int), Error> {
    if s.len() < 4 {
        Err(Error::ConnectionLost)
    } else {
        let n = be32_value(s, 0);
        if s.len() < 4 + n {
            Err(Error::ConnectionLost)
        } else {
            match spec_parse_message(s.subrange(4, 4 + n)) {
                Ok(m) => Ok((m, 4 + n)),
                Err(e) => Err(e),
            }
        }
    }
}

/// Appends the four bytes of `n` to `out`, the most significant first.
pub fn write_be32(out: &mut Vec<u8>, n: u32)
    ensures
        final(out)@ == old(out)@ + be32(n),
{
    out.push((n / 0x100_0000) as u8);
    out.push((n / 0x1_0000 % 0x100) as u8);
    out.push((n / 0x100 % 0x100) as u8);
    out.push((n % 0x100) as u8);
    assert(final(out)@ =~= old(out)@ + be32(n));
}

/// Reads four bytes from `at` on as a number, the most significant first.
fn read_be32(bytes: &[u8], at: usize) -> (n: u32)
    requires
        at + 4 <= bytes@.len(),
    ensures
        n == be32_value(bytes@, at as int),
{
    (bytes[at] as u32) * 0x100_0000 + (bytes[at + 1] as u32) * 0x1_0000 + (bytes[at + 2] as u32)
        * 0x100 + (bytes[at + 3] as u32)
}

/// The length of the body that follows a length prefix.
pub fn frame_length(prefix: &[u8; 4]) -> (n: u32)
    ensures
        n == be32_value(prefix@, 0),
{
    read_be32(prefix.as_slice(), 0)
}

/// Puts a message on the wire: the length prefix and the body.
pub fn encode_message(m: &Message) -> (frame: Vec<u8>)
    requires
        message_body(m@).len() <= u32::MAX,
    ensures
        frame@ == message_frame(m@),
{
    let mut frame: Vec<u8> = Vec::new();
    match m {
        Message::KeepAlive => {
            write_be32(&mut frame, 0);
        },
        Message::Unchoke => {
            write_be32(&mut frame, 1);
            frame.push(1);
        },
        Message::Interested => {
            write_be32(&mut frame, 1);
            frame.push(2);
        },
        Message::Have { index } => {
            write_be32(&mut frame, 5);
            frame.push(4);
            write_be32(&mut frame, *index);
        },
        Message::Bitfield { bits } => {
            write_be32(&mut frame, (bits.len() + 1) as u32);
            frame.push(5);
            append_bytes(&mut frame, bits.as_slice());
        },
        Message::Request { index, begin, length } => {
            write_be32(&mut frame, 13);
            frame.push(6);
            write_be32(&mut frame, *index);
            write_be32(&mut frame, *begin);
            write_be32(&mut frame, *length);
        },
        Message::Piece { index, begin, block } => {
            write_be32(&mut frame, (block.len() + 9) as u32);
            frame.push(7);
            write_be32(&mut frame, *index);
            write_be32(&mut frame, *begin);
            append_bytes(&mut frame, block.as_slice());
        },
        Message::Other { id, payload } => {
            write_be32(&mut frame, (payload.len() + 1) as u32);
            frame.push(*id);
            append_bytes(&mut frame, payload.as_slice());
        },
    }
    assert(frame@ =~= message_frame(m@));
    frame
}

/// Reads a message from its body, the bytes that followed the length
/// prefix.
pub fn parse_message(body: &[u8]) -> (r: Result<Message, Error>)
    ensures
        match r {
            Ok(m) => spec_parse_message(body@) == Ok::<MessageView, Error>(m@),
            Err(e) => spec_parse_message(body@) == Err::<MessageView, Error>(e),
        },
{
    let len: usize = body.len();
    if len == 0 {
        return Ok(Message::KeepAlive);
    }
    let id: u8 = body[0];
    let payload: &[u8] = slice_subrange(body, 1, len);
    assert(payload@ =~= body@.skip(1));
    if id == 1 {
        if len == 1 {
            Ok(Message::Unchoke)
        } else {
            Err(Error::MalformedInput)
        }
    } else if id == 2 {
        if len == 1 {
            Ok(Message::Interested)
        } else {
            Err(Error::MalformedInput)
        }
    } else if id == 4 {
        if len == 5 {
            Ok(Message::Have { index: read_be32(payload, 0) })
        } else {
            Err(Error::MalformedInput)
        }
    } else if id == 5 {
        Ok(Message::Bitfield { bits: slice_to_vec(payload) })
    } else if id == 6 {
        if len == 13 {
            Ok(
                Message::Request {
                    index: read_be32(payload, 0),
                    begin: read_be32(payload, 4),
                    length: read_be32(payload, 8),
                },
            )
        } else {
            Err(Error::MalformedInput)
        }
    } else if id == 7 {
        if len >= 9 {
            let block: Vec<u8> = slice_to_vec(slice_subrange(payload, 8, len - 1));
            assert(block@ =~= payload@.skip(8));
            Ok(Message::Piece { index: read_be32(payload, 0), begin: read_be32(payload, 4), block })
        } else {
            Err(Error::MalformedInput)
        }
    } else {
        Ok(Message::Other { id, payload: slice_to_vec(payload) })
    }
}

/// Reads the message that `bytes` starts with and says how many bytes it
/// took.
pub fn decode_frame(bytes: &[u8]) -> (r: Result<(Message, usize), Error>)
    ensures
        match r {
            Ok((m, used)) => spec_decode_frame(bytes@) == Ok::<(MessageView, int), Error>(
                (m@, used as int),
            ) && used <= bytes@.len(),
            Err(e) => spec_decode_frame(bytes@) == Err::<(MessageView, int), Error>(e),
        },
{
    let len: usize = bytes.len();
    if len < 4 {
        return Err(Error::ConnectionLost);
    }
    let n: u32 = read_be32(bytes, 0);
    if ((len - 4) as u64) < n as u64 {
        return Err(Error::ConnectionLost);
    }
    let end: usize = 4 + n as usize;
    match parse_message(slice_subrange(bytes, 4, end)) {
        Ok(m) => Ok((m, end)),
        Err(e) => Err(e),
    }
}

/// A message read from its body is the message.
pub proof fn lemma_parse_message_of_body(m: MessageView)
    requires
        well_formed(m),
    ensures
        spec_parse_message(message_body(m)) == Ok::<MessageView, Error>(m),
{
    let s = message_body(m);
    match m {
        MessageView::KeepAlive => {},
        MessageView::Unchoke => {},
        MessageView::Interested => {},
        MessageView::Have { index } => {
            lemma_be32_value(index);
            assert(s.skip(1) =~= be32(index));
        },
        MessageView::Bitfield { bits } => {
            assert(s.skip(1) =~= bits);
        },
        MessageView::Request { index, begin, length } => {
            lemma_be32_value(index);
            lemma_be32_value(begin);
            lemma_be32_value(length);
            let p = s.skip(1);
            assert(p =~= be32(index) + be32(begin) + be32(length));
            assert(be32_value(p, 0) == be32_value(be32(index), 0));
            assert(be32_value(p, 4) == be32_value(be32(begin), 0));
            assert(be32_value(p, 8) == be32_value(be32(length), 0));
        },
        MessageView::Piece { index, begin, block } => {
            lemma_be32_value(index);
            lemma_be32_value(begin);
            let p = s.skip(1);
            assert(p =~= be32(index) + be32(begin) + block);
            assert(be32_value(p, 0) == be32_value(be32(index), 0));
            assert(be32_value(p, 4) == be32_value(be32(begin), 0));
            assert(p.skip(8) =~= block);
        },
        MessageView::Other { id, payload } => {
            assert(s.skip(1) =~= payload);
        },
    }
}

/// A message read from the wire is the message that was put there, and
/// what follows its frame stays unread. Only the keep-alive has the frame
/// of length zero.
pub proof fn lemma_decode_frame_of_frame(m: MessageView, rest: Seq<u8>)
    requires
        well_formed(m),
        message_body(m).len() <= u32::MAX,
    ensures
        spec_decode_frame(message_frame(m) + rest) == Ok::<(MessageView, int), Error>(
            (m, message_frame(m).len() as int),
        ),
        m is KeepAlive <==> message_frame(m) == be32(0),
{
    let body = message_body(m);
    let s = message_frame(m) + rest;
    lemma_be32_value(body.len() as u32);
    assert(be32_value(s, 0) == be32_value(be32(body.len() as u32), 0));
    assert(s.subrange(4, 4 + body.len() as int) =~= body);
    lemma_parse_message_of_body(m);
    lemma_be32_value(0);
    if message_frame(m) == be32(0) {
        assert(message_frame(m).len() == 4);
        assert(body.len() == 0);
    }
    if m is KeepAlive {
        assert(message_frame(m) =~= be32(0));
    }
}

} // verus!
