use crate::decode::{
    byte_string_range, decode_entries, decode_value, parse_bytes, skip_value, value_end,
};
use crate::digits::is_digit;
use crate::entries::first_value;
use crate::error::Error;
use crate::bytes::bytes_equal;
use crate::text::{decimal_chars, push_decimal_text};
use crate::value::ValueView;
use vstd::prelude::*;
use vstd::slice::{slice_subrange, slice_to_vec};
use vstd::string::StringExecFns;

verus! {

/// One peer of the swarm: an IPv4 address and a port.
#[derive(Clone, Copy, Debug, PartialEq, Eq)]
pub struct PeerAddress {
    pub ip: [u8; 4],
    pub port: u16,
}

/// The key under which a tracker's response holds its compact peer list.
pub open spec fn peers_key() -> Seq<u8> {
    seq![112u8, 101u8, 101u8, 114u8, 115u8]
}

/// What scanning the entries of a response from `i` on makes of it: the
/// byte string under the first key `peers`. Entries before it are passed
/// over. A response that ends without that key, or holds something other
/// than a byte string under it, breaks the tracker protocol; one that is
/// no well-formed dictionary up to that point is malformed.
pub open spec fn scan_for_peers(s: Seq<u8>, i: int) -> Result<Seq<u8>, Error>
    decreases s.len() - i,
{
    if !(0 <= i < s.len()) {
        Err(Error::MalformedInput)
    } else if s[i] == 101 {
        Err(Error::TrackerProtocolError)
    } else {
        match parse_bytes(s, i) {
            None => Err(Error::MalformedInput),
            Some((key, j)) => if key == peers_key() {
                match parse_bytes(s, j) {
                    Some((peers, _)) => Ok(peers),
                    None => if value_end(s, j) is Some {
                        Err(Error::TrackerProtocolError)
                    } else {
                        Err(Error::MalformedInput)
                    },
                }
            } else {
                match value_end(s, j) {
                    Some(k) => if j < k <= s.len() {
                        scan_for_peers(s, k)
                    } else {
                        Err(Error::MalformedInput)
                    },
                    None => Err(Error::MalformedInput),
                }
            },
        }
    }
}

/// The compact peer list of a tracker's response. The response has to be
/// a dictionary.
pub open spec fn spec_extract_peers(s: Seq<u8>) -> Result<Seq<u8>, Error> {
    if s.len() == 0 {
        Err(Error::MalformedInput)
    } else if s[0] != 100 {
        Err(Error::TrackerProtocolError)
    } else {
        scan_for_peers(s, 1)
    }
}

/// What the entries of a decoded response say of its peers: the byte
/// string that the first entry under `peers` holds.
pub open spec fn peers_of_entries(entries: Seq<(Seq<u8>, ValueView)>) -> Result<Seq<u8>, Error> {
    match first_value(entries, peers_key()) {
        Some(ValueView::Bytes(peers)) => Ok(peers),
        _ => Err(Error::TrackerProtocolError),
    }
}

/// The scan and the decoder agree: where the entries from `i` on decode,
/// the scan finds what they hold under their first key `peers`.
pub proof fn lemma_scan_agrees_with_decoder(s: Seq<u8>, i: int)
    requires
        decode_entries(s, i) is Some,
    ensures
        scan_for_peers(s, i) == peers_of_entries((decode_entries(s, i)->0).0),
    decreases s.len() - i,
{
    if s[i] != 101 {
        let (key, j) = parse_bytes(s, i)->0;
        let (v, k) = decode_value(s, j)->0;
        let (rest, _) = decode_entries(s, k)->0;
        let raw = seq![(key, v)] + rest;
        assert(raw.skip(1) =~= rest);
        if key == peers_key() {
            if s[j] == 105 || s[j] == 108 || s[j] == 100 {
                assert(!is_digit(s[j]));
            }
        } else {
            lemma_scan_agrees_with_decoder(s, k);
        }
    }
}

/// The scan and the decoder agree on every response that decodes as a
/// dictionary.
pub proof fn lemma_extract_agrees_with_decoder(s: Seq<u8>)
    requires
        decode_value(s, 0) matches Some((v, _)) && v is Dict,
    ensures
        spec_extract_peers(s) == peers_of_entries((decode_entries(s, 1)->0).0),
{
    if s[0] == 100 {
        lemma_scan_agrees_with_decoder(s, 1);
    }
}

/// Extracts the raw compact peer list from a tracker's response: scans
/// the top-level dictionary key by key, skips what other keys hold, and
/// copies the byte string under `peers`.
pub fn extract_peers_bytes(bytes: &[u8]) -> (r: Result<Vec<u8>, Error>)
    ensures
        match r {
            Ok(peers) => spec_extract_peers(bytes@) == Ok::<Seq<u8>, Error>(peers@),
            Err(e) => spec_extract_peers(bytes@) == Err::<Seq<u8>, Error>(e),
        },
{
    if bytes.len() == 0 {
        return Err(Error::MalformedInput);
    }
    if bytes[0] != 100 {
        return Err(Error::TrackerProtocolError);
    }
    let wanted: [u8; 5] = [112, 101, 101, 114, 115];
    assert(wanted@ =~= peers_key());
    let mut at: usize = 1;
    loop
        invariant
            1 <= at <= bytes@.len(),
            wanted@ == peers_key(),
            spec_extract_peers(bytes@) == scan_for_peers(bytes@, at as int),
        decreases bytes@.len() - at,
    {
        if at >= bytes.len() {
            return Err(Error::MalformedInput);
        }
        if bytes[at] == 101 {
            return Err(Error::TrackerProtocolError);
        }
        let (from, to) = match byte_string_range(bytes, at) {
            Err(e) => {
                return Err(e);
            },
            Ok(range) => range,
        };
        if bytes_equal(slice_subrange(bytes, from, to), wanted.as_slice()) {
            match byte_string_range(bytes, to) {
                Ok((start, end)) => {
                    return Ok(slice_to_vec(slice_subrange(bytes, start, end)));
                },
                Err(_) => {
                    match skip_value(bytes, to) {
                        Ok(_) => {
                            return Err(Error::TrackerProtocolError);
                        },
                        Err(e) => {
                            return Err(e);
                        },
                    }
                },
            }
        }
        match skip_value(bytes, to) {
            Err(e) => {
                return Err(e);
            },
            Ok(next) => {
                at = next;
            },
        }
    }
}

/// The `i`-th record of a compact peer list: four bytes of address, then
/// the port, high byte first.
pub open spec fn peer_at(s: Seq<u8>, i: int) -> PeerAddress {
    PeerAddress {
        ip: [s[6 * i], s[6 * i + 1], s[6 * i + 2], s[6 * i + 3]],
        port: (s[6 * i + 4] * 256 + s[6 * i + 5]) as u16,
    }
}

/// The records of a compact peer list, six bytes each; a last chunk of
/// fewer than six bytes counts for nothing.
pub open spec fn spec_parse_peers(s: Seq<u8>) -> Seq<PeerAddress> {
    Seq::new((s.len() / 6) as nat, |i: int| peer_at(s, i))
}

/// Cuts a compact peer list into its records.
pub fn parse_peers(bytes: &[u8]) -> (peers: Vec<PeerAddress>)
    ensures
        peers@ == spec_parse_peers(bytes@),
{
    let len: usize = bytes.len();
    let count: usize = len / 6;
    let mut peers: Vec<PeerAddress> = Vec::new();
    let mut i: usize = 0;
    while i < count
        invariant
            i <= count,
            len == bytes@.len(),
            count == len / 6,
            peers@.len() == i,
            forall|j: int| 0 <= j < i ==> peers@[j] == peer_at(bytes@, j),
        decreases count - i,
    {
        let base: usize = 6 * i;
        let ip: [u8; 4] = [bytes[base], bytes[base + 1], bytes[base + 2], bytes[base + 3]];
        let port: u16 = (bytes[base + 4] as u16) * 256 + (bytes[base + 5] as u16);
        peers.push(PeerAddress { ip, port });
        i = i + 1;
    }
    assert(peers@ =~= spec_parse_peers(bytes@));
    peers
}

/// The peers that a tracker's response names.
pub open spec fn spec_peers_from_response(s: Seq<u8>) -> Result<Seq<PeerAddress>, Error> {
    match spec_extract_peers(s) {
        Ok(list) => Ok(spec_parse_peers(list)),
        Err(e) => Err(e),
    }
}

/// Reads the peers out of a tracker's response.
pub fn peers_from_response(body: &[u8]) -> (r: Result<Vec<PeerAddress>, Error>)
    ensures
        match r {
            Ok(peers) => spec_peers_from_response(body@) == Ok::<Seq<PeerAddress>, Error>(peers@),
            Err(e) => spec_peers_from_response(body@) == Err::<Seq<PeerAddress>, Error>(e),
        },
{
    match extract_peers_bytes(body) {
        Ok(list) => Ok(parse_peers(list.as_slice())),
        Err(e) => Err(e),
    }
}

/// The first peer of a list, the one to connect to; `None` where the
/// tracker named no peer.
pub fn first_peer(peers: &Vec<PeerAddress>) -> (r: Option<PeerAddress>)
    ensures
        match r {
            Some(peer) => peers@.len() > 0 && peer == peers@[0],
            None => peers@.len() == 0,
        },
{
    if peers.len() == 0 {
        None
    } else {
        Some(peers[0])
    }
}

/// The upper-case hexadecimal digit for `d`, which is below 16.
pub open spec fn hex_upper(d: int) -> u8 {
    if d < 10 {
        (48 + d) as u8
    } else {
        (55 + d) as u8
    }
}

/// A percent sign and the two upper-case hexadecimal digits of `b`.
pub open spec fn percent_triplet(b: u8) -> Seq<char> {
    seq![37u8 as char, hex_upper(b as int / 16) as char, hex_upper(b as int % 16) as char]
}

/// Every byte of `bytes` written as its percent triplet: no byte is
/// passed through, whatever character it would stand for.
pub open spec fn percent_encoded(bytes: Seq<u8>) -> Seq<char>
    decreases bytes.len(),
{
    if bytes.len() == 0 {
        Seq::empty()
    } else {
        percent_encoded(bytes.drop_last()) + percent_triplet(bytes.last())
    }
}

fn hex_upper_digit(d: u8) -> (c: char)
    requires
        d < 16,
    ensures
        c == hex_upper(d as int) as char,
{
    if d < 10 {
        (48 + d) as char
    } else {
        (55 + d) as char
    }
}

/// Percent-encodes raw bytes for a query string, each byte as `%XX`.
pub fn url_encode_bytes(bytes: &[u8]) -> (text: String)
    ensures
        text@ == percent_encoded(bytes@),
{
    let mut text: String = String::new();
    let mut i: usize = 0;
    assert(bytes@.take(0) =~= Seq::<u8>::empty());
    while i < bytes.len()
        invariant
            i <= bytes@.len(),
            text@ == percent_encoded(bytes@.take(i as int)),
        decreases bytes@.len() - i,
    {
        let b: u8 = bytes[i];
        text.push(37u8 as char);
        text.push(hex_upper_digit(b / 16));
        text.push(hex_upper_digit(b % 16));
        proof {
            assert(bytes@.take(i + 1).drop_last() =~= bytes@.take(i as int));
            assert(text@ =~= percent_encoded(bytes@.take(i as int)) + percent_triplet(b));
        }
        i = i + 1;
    }
    assert(bytes@.take(i as int) =~= bytes@);
    text
}

/// The announce request for a tracker: the announce URL, then the query
/// with the content identifier and the peer id percent-encoded byte by
/// byte, the fixed port and counters, and what is left to download.
pub open spec fn spec_announce_url(
    announce: Seq<char>,
    info_hash: Seq<u8>,
    peer_id: Seq<u8>,
    left: nat,
) -> Seq<char> {
    announce + "?info_hash="@ + percent_encoded(info_hash) + "&peer_id="@ + percent_encoded(peer_id)
        + "&port=6881&uploaded=0&downloaded=0&left="@ + decimal_chars(left) + "&compact=1"@
}

/// Builds the URL of the announce request.
pub fn announce_url(announce: &str, info_hash: &[u8], peer_id: &[u8], left: u64) -> (url: String)
    ensures
        url@ == spec_announce_url(announce@, info_hash@, peer_id@, left as nat),
{
    let mut url: String = announce.to_owned();
    url.append("?info_hash=");
    let hash_text: String = url_encode_bytes(info_hash);
    url.append(hash_text.as_str());
    url.append("&peer_id=");
    let id_text: String = url_encode_bytes(peer_id);
    url.append(id_text.as_str());
    url.append("&port=6881&uploaded=0&downloaded=0&left=");
    push_decimal_text(&mut url, left);
    url.append("&compact=1");
    url
}

/// A peer's address as text: the four bytes of the address in decimal
/// with dots between them, a colon, the port in decimal.
pub open spec fn peer_text(peer: PeerAddress) -> Seq<char> {
    decimal_chars(peer.ip[0] as nat) + "."@ + decimal_chars(peer.ip[1] as nat) + "."@
        + decimal_chars(peer.ip[2] as nat) + "."@ + decimal_chars(peer.ip[3] as nat) + ":"@
        + decimal_chars(peer.port as nat)
}

impl PeerAddress {
    /// The address in the form `a.b.c.d:port`.
    pub fn to_text(&self) -> (text: String)
        ensures
            text@ == peer_text(*self),
    {
        let mut text: String = String::new();
        push_decimal_text(&mut text, self.ip[0] as u64);
        text.append(".");
        push_decimal_text(&mut text, self.ip[1] as u64);
        text.append(".");
        push_decimal_text(&mut text, self.ip[2] as u64);
        text.append(".");
        push_decimal_text(&mut text, self.ip[3] as u64);
        text.append(":");
        push_decimal_text(&mut text, self.port as u64);
        assert(text@ =~= peer_text(*self));
        text
    }
}

} // verus!
