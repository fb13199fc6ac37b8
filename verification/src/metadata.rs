use crate::decode::{decode, spec_decode};
use crate::digest::{sha1_digest, sha1_of};
use crate::encode::{encode, spec_encode};
use crate::entries::last_value;
use crate::error::Error;
use crate::roundtrip::lemma_reencoding_stable;
use crate::text::string_from_utf8;
use crate::value::{find_entry, view_entries, Value, ValueView};
use vstd::prelude::*;
use vstd::slice::{slice_subrange, slice_to_vec};
use vstd::utf8::{decode_utf8, valid_utf8};

verus! {

/// The key `announce`.
pub open spec fn key_announce() -> Seq<u8> {
    seq![97u8, 110u8, 110u8, 111u8, 117u8, 110u8, 99u8, 101u8]
}

/// The key `info`.
pub open spec fn key_info() -> Seq<u8> {
    seq![105u8, 110u8, 102u8, 111u8]
}

/// The key `length`.
pub open spec fn key_length() -> Seq<u8> {
    seq![108u8, 101u8, 110u8, 103u8, 116u8, 104u8]
}

/// The key `piece length`.
pub open spec fn key_piece_length() -> Seq<u8> {
    seq![112u8, 105u8, 101u8, 99u8, 101u8, 32u8, 108u8, 101u8, 110u8, 103u8, 116u8, 104u8]
}

/// The key `pieces`.
pub open spec fn key_pieces() -> Seq<u8> {
    seq![112u8, 105u8, 101u8, 99u8, 101u8, 115u8]
}

/// Mathematical model of a descriptor.
pub struct MetadataView {
    pub announce: Seq<char>,
    pub length: nat,
    pub piece_length: nat,
    pub pieces: Seq<u8>,
    pub info: ValueView,
}

/// A single-file descriptor: where to announce, how long the file is, how
/// it is cut into pieces, what each piece hashes to, and the info
/// dictionary that all but the first of these were read from.
#[derive(Debug)]
pub struct TorrentMetadata {
    announce: String,
    length: u64,
    piece_length: u64,
    pieces: Vec<u8>,
    info: Value,
}

impl View for TorrentMetadata {
    type V = MetadataView;

    closed spec fn view(&self) -> MetadataView {
        MetadataView {
            announce: self.announce@,
            length: self.length as nat,
            piece_length: self.piece_length as nat,
            pieces: self.pieces@,
            info: self.info@,
        }
    }
}

/// What the info dictionary `info` makes a descriptor, given the announce
/// URL. The three keys have to be there with the right kind of value; the
/// hashes have to be whole; the length may not be negative and the piece
/// length has to be positive.
pub open spec fn interpret_info(announce: Seq<char>, info: Seq<(Seq<u8>, ValueView)>) -> Result<
    MetadataView,
    Error,
> {
    match last_value(info, key_length()) {
        Some(ValueView::Integer(length)) => match last_value(info, key_piece_length()) {
            Some(ValueView::Integer(piece_length)) => match last_value(info, key_pieces()) {
                Some(ValueView::Bytes(pieces)) => if pieces.len() % 20 != 0 {
                    Err(Error::MalformedInput)
                } else if length < 0 || piece_length <= 0 {
                    Err(Error::InvalidMetadata)
                } else {
                    Ok(
                        MetadataView {
                            announce,
                            length: length as nat,
                            piece_length: piece_length as nat,
                            pieces,
                            info: ValueView::Dict(info),
                        },
                    )
                },
                _ => Err(Error::MissingField),
            },
            _ => Err(Error::MissingField),
        },
        _ => Err(Error::MissingField),
    }
}

/// What a decoded tree makes a descriptor: a dictionary with an announce
/// URL that is text and an info dictionary.
pub open spec fn spec_interpret(root: ValueView) -> Result<MetadataView, Error> {
    match root {
        ValueView::Dict(top) => match last_value(top, key_announce()) {
            Some(ValueView::Bytes(url)) => if !valid_utf8(url) {
                Err(Error::InvalidMetadata)
            } else {
                match last_value(top, key_info()) {
                    Some(ValueView::Dict(info)) => interpret_info(decode_utf8(url), info),
                    _ => Err(Error::MissingField),
                }
            },
            _ => Err(Error::MissingField),
        },
        _ => Err(Error::MissingField),
    }
}

/// What the bytes of a descriptor file make a descriptor.
pub open spec fn spec_parse(s: Seq<u8>) -> Result<MetadataView, Error> {
    match spec_decode(s) {
        Some(root) => spec_interpret(root),
        None => Err(Error::MalformedInput),
    }
}

/// The content identifier of a descriptor with the info dictionary
/// `info`: the digest of the canonical encoding of `info`, and of nothing
/// else.
pub open spec fn spec_content_identifier(info: ValueView) -> Seq<u8> {
    sha1_digest(spec_encode(info))
}

/// How many pieces the hashes `pieces` stand for.
pub open spec fn spec_piece_count(m: MetadataView) -> nat {
    m.pieces.len() / 20
}

/// The size of the piece `index`: the piece length for all but the last
/// piece, what is left of the file for the last. There is no size for a
/// piece that does not exist, nor one that is not positive.
pub open spec fn spec_piece_size(m: MetadataView, index: int) -> Result<nat, Error> {
    let count = spec_piece_count(m) as int;
    let size = if index + 1 < count {
        m.piece_length as int
    } else {
        m.length - m.piece_length * (count - 1)
    };
    if 0 <= index < count && size > 0 {
        Ok(size as nat)
    } else {
        Err(Error::InvalidMetadata)
    }
}

fn integer_under(entries: &Vec<(Vec<u8>, Value)>, key: &[u8]) -> (r: Option<i64>)
    ensures
        match r {
            Some(n) => last_value(view_entries(entries@), key@) == Some(ValueView::Integer(n)),
            None => !(last_value(view_entries(entries@), key@) is Some && last_value(
                view_entries(entries@),
                key@,
            )->0 is Integer),
        },
{
    match find_entry(entries, key) {
        Some(i) => match &entries[i].1 {
            Value::Integer(n) => Some(*n),
            _ => None,
        },
        None => None,
    }
}

fn bytes_under(entries: &Vec<(Vec<u8>, Value)>, key: &[u8]) -> (r: Option<Vec<u8>>)
    ensures
        match r {
            Some(b) => last_value(view_entries(entries@), key@) == Some(ValueView::Bytes(b@)),
            None => !(last_value(view_entries(entries@), key@) is Some && last_value(
                view_entries(entries@),
                key@,
            )->0 is Bytes),
        },
{
    match find_entry(entries, key) {
        Some(i) => match &entries[i].1 {
            Value::ByteString(b) => Some(slice_to_vec(b.as_slice())),
            _ => None,
        },
        None => None,
    }
}

/// Interprets a decoded tree as a descriptor.
pub fn interpret(root: Value) -> (r: Result<TorrentMetadata, Error>)
    ensures
        match r {
            Ok(m) => spec_interpret(root@) == Ok::<MetadataView, Error>(m@),
            Err(e) => spec_interpret(root@) == Err::<MetadataView, Error>(e),
        },
{
    let key_announce_bytes: [u8; 8] = [97, 110, 110, 111, 117, 110, 99, 101];
    let key_info_bytes: [u8; 4] = [105, 110, 102, 111];
    let key_length_bytes: [u8; 6] = [108, 101, 110, 103, 116, 104];
    let key_piece_length_bytes: [u8; 12] = [112, 105, 101, 99, 101, 32, 108, 101, 110, 103, 116, 104];
    let key_pieces_bytes: [u8; 6] = [112, 105, 101, 99, 101, 115];
    proof {
        assert(key_announce_bytes@ =~= key_announce());
        assert(key_info_bytes@ =~= key_info());
        assert(key_length_bytes@ =~= key_length());
        assert(key_piece_length_bytes@ =~= key_piece_length());
        assert(key_pieces_bytes@ =~= key_pieces());
    }
    let mut top: Vec<(Vec<u8>, Value)> = match root {
        Value::Dict(entries) => entries,
        _ => {
            return Err(Error::MissingField);
        },
    };
    let ghost top_view = view_entries(top@);
    let url: Vec<u8> = match bytes_under(&top, key_announce_bytes.as_slice()) {
        Some(url) => url,
        None => {
            return Err(Error::MissingField);
        },
    };
    let announce: String = match string_from_utf8(url) {
        Some(text) => text,
        None => {
            return Err(Error::InvalidMetadata);
        },
    };
    let at: usize = match find_entry(&top, key_info_bytes.as_slice()) {
        Some(at) => at,
        None => {
            return Err(Error::MissingField);
        },
    };
    let (_, info): (Vec<u8>, Value) = top.swap_remove(at);
    let entries: &Vec<(Vec<u8>, Value)> = match &info {
        Value::Dict(entries) => entries,
        _ => {
            return Err(Error::MissingField);
        },
    };
    let length: i64 = match integer_under(entries, key_length_bytes.as_slice()) {
        Some(n) => n,
        None => {
            return Err(Error::MissingField);
        },
    };
    let piece_length: i64 = match integer_under(entries, key_piece_length_bytes.as_slice()) {
        Some(n) => n,
        None => {
            return Err(Error::MissingField);
        },
    };
    let pieces: Vec<u8> = match bytes_under(entries, key_pieces_bytes.as_slice()) {
        Some(b) => b,
        None => {
            return Err(Error::MissingField);
        },
    };
    if pieces.len() % 20 != 0 {
        return Err(Error::MalformedInput);
    }
    if length < 0 || piece_length <= 0 {
        return Err(Error::InvalidMetadata);
    }
    Ok(
        TorrentMetadata {
            announce,
            length: length as u64,
            piece_length: piece_length as u64,
            pieces,
            info,
        },
    )
}

/// Reads a descriptor from the bytes of its file.
pub fn parse(bytes: &[u8]) -> (r: Result<TorrentMetadata, Error>)
    ensures
        match r {
            Ok(m) => spec_parse(bytes@) == Ok::<MetadataView, Error>(m@),
            Err(e) => spec_parse(bytes@) == Err::<MetadataView, Error>(e),
        },
{
    match decode(bytes) {
        Ok(root) => interpret(root),
        Err(e) => Err(e),
    }
}

impl TorrentMetadata {
    /// The URL to announce to.
    pub fn announce(&self) -> (url: &str)
        ensures
            url@ == self@.announce,
    {
        self.announce.as_str()
    }

    /// The length of the file in bytes.
    pub fn length(&self) -> (n: u64)
        ensures
            n == self@.length,
    {
        self.length
    }

    /// The length of each piece but the last.
    pub fn piece_length(&self) -> (n: u64)
        ensures
            n == self@.piece_length,
    {
        self.piece_length
    }

    /// The hashes of the pieces, twenty bytes each, one after the other.
    pub fn pieces(&self) -> (hashes: &[u8])
        ensures
            hashes@ == self@.pieces,
    {
        self.pieces.as_slice()
    }

    /// The info dictionary.
    pub fn info(&self) -> (info: &Value)
        ensures
            info@ == self@.info,
    {
        &self.info
    }

    /// The identifier of the content: the digest of the canonical
    /// encoding of the info dictionary.
    pub fn content_identifier(&self) -> (id: [u8; 20])
        ensures
            id@ == spec_content_identifier(self@.info),
    {
        let encoded: Vec<u8> = encode(&self.info);
        sha1_of(encoded.as_slice())
    }

    /// The number of pieces.
    pub fn piece_count(&self) -> (count: usize)
        ensures
            count == spec_piece_count(self@),
    {
        self.pieces.len() / 20
    }

    /// The size of the piece `index` in bytes.
    pub fn piece_size(&self, index: usize) -> (r: Result<u64, Error>)
        ensures
            match r {
                Ok(size) => spec_piece_size(self@, index as int) == Ok::<nat, Error>(size as nat),
                Err(e) => spec_piece_size(self@, index as int) == Err::<nat, Error>(e),
            },
    {
        let count: usize = self.pieces.len() / 20;
        if index >= count {
            return Err(Error::InvalidMetadata);
        }
        if index + 1 < count {
            if self.piece_length == 0 {
                return Err(Error::InvalidMetadata);
            }
            return Ok(self.piece_length);
        }
        let earlier: u128 = (count - 1) as u128;
        assert(self.piece_length * earlier <= 0xffff_ffff_ffff_ffff * 0xffff_ffff_ffff_ffff)
            by (nonlinear_arith)
            requires
                0 <= self.piece_length <= 0xffff_ffff_ffff_ffff,
                0 <= earlier <= 0xffff_ffff_ffff_ffff,
        ;
        let before: u128 = (self.piece_length as u128) * earlier;
        if before >= self.length as u128 {
            return Err(Error::InvalidMetadata);
        }
        Ok((self.length as u128 - before) as u64)
    }

    /// The hash that the piece `index` has to have; `None` for a piece
    /// that does not exist.
    pub fn piece_hash(&self, index: usize) -> (r: Option<Vec<u8>>)
        ensures
            match r {
                Some(hash) => index < spec_piece_count(self@) && hash@ == self@.pieces.subrange(
                    20 * index,
                    20 * index + 20,
                ),
                None => index >= spec_piece_count(self@),
            },
    {
        let count: usize = self.pieces.len() / 20;
        if index >= count {
            return None;
        }
        let from: usize = 20 * index;
        Some(slice_to_vec(slice_subrange(self.pieces.as_slice(), from, from + 20)))
    }
}

/// The content identifier is a function of the info dictionary. Two
/// descriptors with the same info dictionary have the same identifier,
/// whatever else they hold: another announce URL, other keys beside
/// `info`.
pub proof fn lemma_identifier_ignores_rest(a: Seq<(Seq<u8>, ValueView)>, b: Seq<(Seq<u8>, ValueView)>)
    requires
        spec_interpret(ValueView::Dict(a)) is Ok,
        spec_interpret(ValueView::Dict(b)) is Ok,
        last_value(a, key_info()) == last_value(b, key_info()),
    ensures
        spec_content_identifier(spec_interpret(ValueView::Dict(a))->Ok_0.info)
            == spec_content_identifier(spec_interpret(ValueView::Dict(b))->Ok_0.info),
        last_value(a, key_info()) == Some(spec_interpret(ValueView::Dict(a))->Ok_0.info),
{
}

/// The content identifier is stable under re-encoding. The
/// info dictionary that is decoded from its own canonical encoding has
/// the same identifier.
pub proof fn lemma_identifier_stable(info: ValueView)
    ensures
        spec_decode(spec_encode(info)) matches Some(again) && spec_content_identifier(again)
            == spec_content_identifier(info),
{
    lemma_reencoding_stable(info);
}

/// The sizes of the pieces: where the hashes are as many as the length
/// of the file asks for, every piece has a size, every piece before the
/// last has the piece length, the last has no more, and the sizes of all
/// pieces add up to the length of the file.
pub proof fn lemma_piece_sizes(m: MetadataView, index: int)
    requires
        m.piece_length > 0,
        0 <= index < spec_piece_count(m),
        m.piece_length * (spec_piece_count(m) - 1) < m.length <= m.piece_length * spec_piece_count(m),
    ensures
        spec_piece_size(m, index) is Ok,
        index + 1 < spec_piece_count(m) ==> spec_piece_size(m, index)->Ok_0 == m.piece_length,
        1 <= spec_piece_size(m, index)->Ok_0 <= m.piece_length,
        m.piece_length * (spec_piece_count(m) - 1) + spec_piece_size(
            m,
            spec_piece_count(m) - 1,
        )->Ok_0 == m.length,
{
    let count = spec_piece_count(m) as int;
    let unit = m.piece_length as int;
    assert(unit * count == unit * (count - 1) + unit) by (nonlinear_arith);
}

} // verus!
