use torrent_client::error::Error;
use torrent_client::tracker::{
    announce_url, extract_peers_bytes, parse_peers, url_encode_bytes, PeerAddress,
};

#[test]
fn url_encode_encodes_every_byte() {
    assert_eq!(url_encode_bytes(&[0x00, 0x1a, 0x41, 0xff]), "%00%1A%41%FF");
}

#[test]
fn url_encode_of_nothing_is_empty() {
    assert_eq!(url_encode_bytes(&[]), "");
}

#[test]
fn announce_url_has_every_parameter() {
    let url = announce_url("http://tracker.test/announce", &[0xab, 0x01], &[0x2d, 0x41], 92063);
    assert_eq!(
        url,
        "http://tracker.test/announce?info_hash=%AB%01&peer_id=%2D%41&port=6881&uploaded=0&downloaded=0&left=92063&compact=1"
    );
}

#[test]
fn compact_list_of_twelve_bytes_has_two_peers() {
    let peers = parse_peers(&[1, 2, 3, 4, 0x1a, 0xe1, 10, 0, 0, 1, 0, 80]);
    assert_eq!(
        peers,
        vec![
            PeerAddress { ip: [1, 2, 3, 4], port: 6881 },
            PeerAddress { ip: [10, 0, 0, 1], port: 80 },
        ]
    );
}

#[test]
fn compact_list_ignores_a_trailing_partial_record() {
    let peers = parse_peers(&[1, 2, 3, 4, 0x1a, 0xe1, 10, 0, 0, 1, 0, 80, 7]);
    assert_eq!(peers.len(), 2);
    assert_eq!(peers[1], PeerAddress { ip: [10, 0, 0, 1], port: 80 });
}

#[test]
fn compact_list_shorter_than_a_record_is_empty() {
    assert_eq!(parse_peers(&[1, 2, 3, 4, 5]), vec![]);
    assert_eq!(parse_peers(&[]), vec![]);
}

#[test]
fn peer_address_prints_as_dotted_quad_and_port() {
    let peers = parse_peers(&[1, 2, 3, 4, 0x1a, 0xe1]);
    assert_eq!(peers[0].to_text(), "1.2.3.4:6881");
    assert_eq!(PeerAddress { ip: [255, 0, 10, 199], port: 65535 }.to_text(), "255.0.10.199:65535");
}

#[test]
fn peers_are_found_behind_other_keys() {
    let body = b"d8:completei3e10:incompletei0e8:intervali1800e5:peers6:\x01\x02\x03\x04\x1a\xe14:tailli1ei2eee";
    assert_eq!(extract_peers_bytes(body), Ok(vec![1, 2, 3, 4, 0x1a, 0xe1]));
}

#[test]
fn peers_behind_nested_values_are_found() {
    let body = b"d1:ad1:bl1:cee5:peers0:e";
    assert_eq!(extract_peers_bytes(body), Ok(vec![]));
}

#[test]
fn response_without_peers_breaks_the_protocol() {
    assert_eq!(
        extract_peers_bytes(b"d8:intervali1800ee"),
        Err(Error::TrackerProtocolError)
    );
    assert_eq!(extract_peers_bytes(b"de"), Err(Error::TrackerProtocolError));
}

#[test]
fn response_that_is_no_dictionary_breaks_the_protocol() {
    assert_eq!(extract_peers_bytes(b"l5:peerse"), Err(Error::TrackerProtocolError));
}

#[test]
fn peers_that_are_no_byte_string_break_the_protocol() {
    assert_eq!(
        extract_peers_bytes(b"d5:peersld2:ip7:1.2.3.4eee"),
        Err(Error::TrackerProtocolError)
    );
}

#[test]
fn truncated_response_is_malformed() {
    assert_eq!(extract_peers_bytes(b""), Err(Error::MalformedInput));
    assert_eq!(extract_peers_bytes(b"d8:intervali1800e"), Err(Error::MalformedInput));
    assert_eq!(extract_peers_bytes(b"d5:peers6:\x01\x02"), Err(Error::MalformedInput));
    assert_eq!(extract_peers_bytes(b"d8:intervalixe5:peers0:e"), Err(Error::MalformedInput));
}

#[test]
fn peers_are_read_from_a_response() {
    let body = b"d8:intervali900e5:peers12:\x01\x02\x03\x04\x1a\xe1\x0a\x00\x00\x01\x00\x50e";
    let peers = torrent_client::tracker::peers_from_response(body).unwrap();
    assert_eq!(peers.len(), 2);
    assert_eq!(peers[0].to_text(), "1.2.3.4:6881");
    assert_eq!(peers[1].to_text(), "10.0.0.1:80");
    assert_eq!(torrent_client::tracker::first_peer(&peers), Some(peers[0]));
    assert_eq!(
        torrent_client::tracker::peers_from_response(b"de"),
        Err(Error::TrackerProtocolError)
    );
}

#[test]
fn a_tracker_that_names_no_peer_gives_an_empty_list() {
    let peers = torrent_client::tracker::peers_from_response(b"d5:peers0:e").unwrap();
    assert_eq!(peers, vec![]);
    assert_eq!(torrent_client::tracker::first_peer(&peers), None);
}
