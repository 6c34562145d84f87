use torrent_wire::bencode::{parse_bencode, BencodeValue};
use torrent_wire::model::FormatError;
use torrent_wire::torrent::Torrent;
use torrent_wire::tracker::{
    build_query, build_tracker_url, check_scheme, has_http_scheme, parse_compact_peers,
    parse_tracker_response, request_url, RequestError, ResponseError,
};

const INFO_HASH: [u8; 20] = [
    149, 22, 202, 181, 211, 215, 4, 80, 204, 37, 33, 209, 210, 130, 150, 162, 167, 193, 157, 168,
];

const PEER_ID: [u8; 20] = *b"-TW0001-ABCDEFGHIJKL";

const QUERY: &str = "info_hash=%95%16%CA%B5%D3%D7%04%50%CC%25%21%D1%D2%82%96%A2%A7%C1%9D%A8&peer_id=%2D%54%57%30%30%30%31%2D%41%42%43%44%45%46%47%48%49%4A%4B%4C&port=6881&uploaded=0&downloaded=0&left=1000";

fn torrent(announce: &str, url_list: &[&str]) -> Torrent {
    Torrent {
        announce: announce.to_string(),
        info_hash: INFO_HASH,
        name: "abc".to_string(),
        piece_length: 16384,
        pieces: vec![[b'A'; 20]],
        length: 1000,
        url_list: url_list.iter().map(|s| s.to_string()).collect(),
    }
}

fn response_error(bytes: &[u8]) -> ResponseError {
    match parse_tracker_response(bytes) {
        Ok(_) => panic!("the reply gives peers"),
        Err(e) => e,
    }
}

#[test]
fn the_query_escapes_every_byte() {
    assert_eq!(build_query(&INFO_HASH, &PEER_ID, 1000), QUERY);
}

#[test]
fn the_query_escapes_letters_and_digits_too() {
    let query = build_query(b"AAAAAAAAAAAAAAAAAAAA", b"0123456789abcdefghij", 0);
    assert_eq!(
        query,
        "info_hash=%41%41%41%41%41%41%41%41%41%41%41%41%41%41%41%41%41%41%41%41&peer_id=%30%31%32%33%34%35%36%37%38%39%61%62%63%64%65%66%67%68%69%6A&port=6881&uploaded=0&downloaded=0&left=0"
    );
}

#[test]
fn the_query_writes_escapes_in_upper_case_with_two_digits() {
    let mut hash = [0u8; 20];
    hash[1] = 0x0a;
    hash[2] = 0xff;
    hash[3] = 0xab;
    hash[4] = 0x10;
    let query = build_query(&hash, &[0u8; 20], u64::MAX);
    assert!(query.starts_with("info_hash=%00%0A%FF%AB%10%00"));
    assert!(query.ends_with("&left=18446744073709551615"));
    assert_eq!(query.len(), 10 + 60 + 9 + 60 + 40 + 20);
    for i in 0..20 {
        assert_eq!(&query[10 + 3 * i..11 + 3 * i], "%");
        assert_eq!(&query[79 + 3 * i..80 + 3 * i], "%");
    }
}

#[test]
fn puts_the_query_behind_the_address() {
    let url = build_tracker_url(&torrent("http://tracker.test/", &[]), &PEER_ID).unwrap();
    assert_eq!(url, format!("http://tracker.test/?{}", QUERY));
    let url = build_tracker_url(&torrent("http://tracker.test/announce", &[]), &PEER_ID).unwrap();
    assert_eq!(url, format!("http://tracker.test/announce?{}", QUERY));
}

#[test]
fn writes_the_address_as_a_url() {
    let url = build_tracker_url(&torrent("HTTP://Tracker.TEST", &[]), &PEER_ID).unwrap();
    assert_eq!(url, format!("http://tracker.test/?{}", QUERY));
    let url = build_tracker_url(&torrent("http://tracker.test:80/a b", &[]), &PEER_ID).unwrap();
    assert_eq!(url, format!("http://tracker.test/a%20b?{}", QUERY));
}

#[test]
fn puts_the_query_in_place_of_the_one_that_was_there() {
    let url =
        build_tracker_url(&torrent("http://tracker.test/a?key=1#part", &[]), &PEER_ID).unwrap();
    assert_eq!(url, format!("http://tracker.test/a?{}#part", QUERY));
}

#[test]
fn takes_the_first_other_address_where_there_is_no_tracker() {
    let url = build_tracker_url(
        &torrent("", &["http://first.test/x", "http://second.test/"]),
        &PEER_ID,
    )
    .unwrap();
    assert_eq!(url, format!("http://first.test/x?{}", QUERY));
    let url = build_tracker_url(
        &torrent("http://tracker.test/", &["http://first.test/x"]),
        &PEER_ID,
    )
    .unwrap();
    assert_eq!(url, format!("http://tracker.test/?{}", QUERY));
}

#[test]
fn refuses_a_descriptor_without_an_address() {
    assert_eq!(
        build_tracker_url(&torrent("", &[]), &PEER_ID),
        Err(RequestError::MissingEndpoint)
    );
    assert_eq!(request_url(&torrent("", &[]), &PEER_ID), Err(RequestError::MissingEndpoint));
}

#[test]
fn refuses_an_address_that_is_no_url() {
    assert_eq!(
        build_tracker_url(&torrent("not a url", &[]), &PEER_ID),
        Err(RequestError::InvalidUrl)
    );
    assert_eq!(
        build_tracker_url(&torrent("/announce", &[]), &PEER_ID),
        Err(RequestError::InvalidUrl)
    );
    assert_eq!(
        build_tracker_url(&torrent("", &["http://"]), &PEER_ID),
        Err(RequestError::InvalidUrl)
    );
    assert_eq!(request_url(&torrent("not a url", &[]), &PEER_ID), Err(RequestError::InvalidUrl));
}

#[test]
fn asks_over_http_only() {
    assert_eq!(
        request_url(&torrent("http://tracker.test/", &[]), &PEER_ID),
        Ok(format!("http://tracker.test/?{}", QUERY))
    );
    assert_eq!(
        request_url(&torrent("https://tracker.test/announce", &[]), &PEER_ID),
        Ok(format!("https://tracker.test/announce?{}", QUERY))
    );
    assert_eq!(
        request_url(&torrent("udp://tracker.test:6969/announce", &[]), &PEER_ID),
        Err(RequestError::InvalidScheme)
    );
    assert_eq!(
        request_url(&torrent("ftp://tracker.test/", &[]), &PEER_ID),
        Err(RequestError::InvalidScheme)
    );
    assert!(build_tracker_url(&torrent("udp://tracker.test:6969/announce", &[]), &PEER_ID).is_ok());
}

#[test]
fn tells_http_addresses_from_others() {
    assert!(has_http_scheme("http://a"));
    assert!(has_http_scheme("https://a"));
    assert!(has_http_scheme("http://"));
    assert!(!has_http_scheme("http:/"));
    assert!(!has_http_scheme("http:/a/"));
    assert!(!has_http_scheme("HTTP://a"));
    assert!(!has_http_scheme("udp://a"));
    assert!(!has_http_scheme(""));
    assert!(!has_http_scheme(" http://a"));
    assert!(!has_http_scheme("httpx://a"));
}

#[test]
fn check_scheme_passes_errors_on() {
    assert_eq!(check_scheme(Err(RequestError::InvalidUrl)), Err(RequestError::InvalidUrl));
    assert_eq!(check_scheme(Ok("http://a/".to_string())), Ok("http://a/".to_string()));
    assert_eq!(check_scheme(Ok("udp://a/".to_string())), Err(RequestError::InvalidScheme));
}

#[test]
fn a_refusal_without_terminator_is_a_format_error() {
    assert_eq!(
        response_error(b"d14:failure reason7:bannedd"),
        ResponseError::Format(FormatError::UnterminatedDictionary)
    );
}

#[test]
fn a_refusal_is_a_failure_with_its_reason() {
    assert_eq!(
        response_error(b"d14:failure reason6:bannede"),
        ResponseError::Failure("banned".to_string())
    );
}

#[test]
fn a_reason_declared_a_byte_too_long_takes_the_terminator_in() {
    assert_eq!(
        response_error(b"d14:failure reason7:bannede"),
        ResponseError::Format(FormatError::UnterminatedDictionary)
    );
    assert_eq!(
        response_error(b"d14:failure reason7:bannedee"),
        ResponseError::Failure("bannede".to_string())
    );
}

#[test]
fn a_refusal_comes_before_anything_else_in_the_reply() {
    assert_eq!(
        response_error(b"d14:failure reason6:banned8:intervali60e5:peerslee"),
        ResponseError::Failure("banned".to_string())
    );
}

#[test]
fn a_reason_that_is_not_utf8_is_read_with_replacement_characters() {
    assert_eq!(
        response_error(b"d14:failure reason3:a\xffbe"),
        ResponseError::Failure("a\u{fffd}b".to_string())
    );
}

#[test]
fn a_failure_reason_that_is_no_byte_string_is_passed_over() {
    let reply = parse_tracker_response(b"d14:failure reasoni1e8:intervali60e5:peerslee").unwrap();
    assert_eq!(reply.interval, 60);
    assert!(reply.peers.is_empty());
}

#[test]
fn reads_the_interval_and_the_peers() {
    let reply = parse_tracker_response(
        b"d8:intervali1800e5:peersld2:ip9:127.0.0.14:porti6881eed2:ip11:peer.test.x4:porti51413eeee",
    )
    .unwrap();
    assert_eq!(reply.interval, 1800);
    assert_eq!(reply.peers.len(), 2);
    assert_eq!(reply.peers[0].ip, "127.0.0.1");
    assert_eq!(reply.peers[0].port, 6881);
    assert_eq!(reply.peers[1].ip, "peer.test.x");
    assert_eq!(reply.peers[1].port, 51413);
}

#[test]
fn passes_over_peers_that_are_malformed() {
    let reply = parse_tracker_response(
        b"d8:intervali60e5:peersld2:ip1:a4:porti1eei5ed2:ip1:bed4:porti2eed2:ipi3e4:porti3eed2:ip1:c4:port1:4ed2:ip1:d4:porti5eeee",
    )
    .unwrap();
    assert_eq!(reply.peers.len(), 2);
    assert_eq!(reply.peers[0].ip, "a");
    assert_eq!(reply.peers[0].port, 1);
    assert_eq!(reply.peers[1].ip, "d");
    assert_eq!(reply.peers[1].port, 5);
}

#[test]
fn refuses_a_reply_without_its_parts() {
    assert_eq!(response_error(b"de"), ResponseError::MissingInterval);
    assert_eq!(response_error(b"d5:peerslee"), ResponseError::MissingInterval);
    assert_eq!(response_error(b"d8:interval2:60e"), ResponseError::MissingInterval);
    assert_eq!(response_error(b"d8:intervali60ee"), ResponseError::MissingPeers);
    assert_eq!(response_error(b"d8:intervali60e5:peers6:abcdefe"), ResponseError::MissingPeers);
}

#[test]
fn refuses_a_reply_that_is_no_dictionary() {
    assert_eq!(response_error(b"le"), ResponseError::NotADictionary);
    assert_eq!(response_error(b"i60e"), ResponseError::NotADictionary);
    assert_eq!(response_error(b""), ResponseError::Format(FormatError::UnknownType));
    assert_eq!(response_error(b"d8:interval"), ResponseError::Format(FormatError::UnknownType));
    assert_eq!(
        response_error(b"d8:interva"),
        ResponseError::Format(FormatError::TruncatedByteString)
    );
}

#[test]
fn keeps_the_low_bits_of_numbers_that_do_not_fit() {
    let reply = parse_tracker_response(
        b"d8:intervali4294967297e5:peersld2:ip1:a4:porti65537eed2:ip1:b4:porti-1eeee",
    )
    .unwrap();
    assert_eq!(reply.interval, 1);
    assert_eq!(reply.peers[0].port, 1);
    assert_eq!(reply.peers[1].port, 65535);
    let reply = parse_tracker_response(b"d8:intervali-1e5:peerslee").unwrap();
    assert_eq!(reply.interval, u32::MAX);
    let reply = parse_tracker_response(b"d8:intervali-4294967296e5:peerslee").unwrap();
    assert_eq!(reply.interval, 0);
    let reply = parse_tracker_response(b"d8:intervali-9223372036854775808e5:peerslee").unwrap();
    assert_eq!(reply.interval, 0);
    let reply = parse_tracker_response(b"d8:intervali9223372036854775807e5:peerslee").unwrap();
    assert_eq!(reply.interval, u32::MAX);
}

#[test]
fn parse_compact_peers_reads_a_list_of_dictionaries() {
    let (value, _) =
        parse_bencode(b"ld2:ip4:\xf0\x9f\x98\x804:porti80eed4:porti81e2:ip2:\xc3\x28ee").unwrap();
    let items = match value {
        BencodeValue::List(items) => items,
        _ => panic!("not a list"),
    };
    let peers = parse_compact_peers(&items);
    assert_eq!(peers.len(), 2);
    assert_eq!(peers[0].ip, "\u{1f600}");
    assert_eq!(peers[0].port, 80);
    assert_eq!(peers[1].ip, "\u{fffd}(");
    assert_eq!(peers[1].port, 81);
    assert!(parse_compact_peers(&[]).is_empty());
}
