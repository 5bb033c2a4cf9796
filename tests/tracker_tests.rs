use rusty_bit::bencode::DecodeError;
use rusty_bit::tracker::{parse_response, retry_delay_secs, Event, TrackerError, TrackerRequest, TrackerResponse};

#[test]
fn compact_peer_list() {
    let r = parse_response(b"d8:intervali60e5:peers6:\x7f\x00\x00\x01\x1a\xe1e").unwrap();
    match r {
        TrackerResponse::Success { interval, peers, complete, tracker_id, .. } => {
            assert_eq!(interval, 60);
            assert_eq!(peers.len(), 1);
            assert_eq!(peers[0].host, b"127.0.0.1".to_vec());
            assert_eq!(peers[0].port, 6881);
            assert_eq!(complete, None);
            assert_eq!(tracker_id, None);
        }
        _ => panic!("expected a peer list"),
    }
}

#[test]
fn list_form_peers_and_extra_keys() {
    let r = parse_response(
        b"d8:completei4e8:intervali30e5:peersld2:ip9:10.0.0.254:porti51413eee10:tracker id3:abce",
    )
    .unwrap();
    match r {
        TrackerResponse::Success { interval, peers, complete, tracker_id, .. } => {
            assert_eq!(interval, 30);
            assert_eq!(peers.len(), 1);
            assert_eq!(peers[0].host, b"10.0.0.25".to_vec());
            assert_eq!(peers[0].port, 51413);
            assert_eq!(complete, Some(4));
            assert_eq!(tracker_id, Some(b"abc".to_vec()));
        }
        _ => panic!("expected a peer list"),
    }
}

#[test]
fn failure_reason() {
    match parse_response(b"d14:failure reason9:not founde").unwrap() {
        TrackerResponse::Failure { reason } => assert_eq!(reason, b"not found".to_vec()),
        _ => panic!("expected a failure"),
    }
}

#[test]
fn tracker_response_errors() {
    assert_eq!(parse_response(b"d8:interval").err(), Some(TrackerError::Decode(DecodeError::TruncatedInput)));
    assert_eq!(parse_response(b"d8:intervali60ee").err(), Some(TrackerError::Schema));
    assert_eq!(parse_response(b"d8:intervali60e5:peers5:abcdee").err(), Some(TrackerError::Schema));
}

#[test]
fn announce_query_string() {
    let mut ih = [0u8; 20];
    ih[0] = 0x12;
    ih[1] = b'A';
    ih[2] = 0xff;
    let req = TrackerRequest::new(ih, 1000, *b"-RB0001-abcdefghijkl");
    assert_eq!(req.event, Event::STARTED);
    let q = String::from_utf8(req.query()).unwrap();
    let mut expected = String::from("info_hash=%12A%FF");
    for _ in 0..17 {
        expected.push_str("%00");
    }
    expected.push_str("&peer_id=-RB0001-abcdefghijkl&port=6881&uploaded=0&downloaded=0&left=1000&compact=1&event=started");
    assert_eq!(q, expected);
    let url = String::from_utf8(req.url(b"http://t.test/announce")).unwrap();
    assert_eq!(url, format!("http://t.test/announce?{}", expected));
    let url = String::from_utf8(req.url(b"http://t.test/a?key=1")).unwrap();
    assert_eq!(url, format!("http://t.test/a?key=1&{}", expected));
}

#[test]
fn retry_delays_double_up_to_a_minute() {
    let delays: Vec<u64> = (0..7).map(retry_delay_secs).collect();
    assert_eq!(delays, vec![2, 4, 8, 16, 32, 60, 60]);
}
