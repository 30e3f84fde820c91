use ratioup::announcer::tracker::{ClientProfile, Event};
use ratioup::announcer::udp::{
    announce_request, apply_udp_outcome, connect_request, parse_announce_response, parse_connect_response,
    peer_id_array, preferred_address, read_be, transaction_id_from, udp_request_after, udp_target, unresolved_host,
    TrackerError, TrackerRequest, TrackerResponse,
};
use ratioup::config::Config;
use ratioup::torrent::Torrent;

fn make_torrent() -> Torrent {
    Torrent {
        name: String::from("test"),
        urls: vec![String::from("udp://tracker.example.com:6969/announce")],
        length: 1024,
        private: false,
        uploaded: 100,
        last_announce: std::time::Instant::now(),
        info_hash: [7u8; 20],
        info_hash_urlencoded: String::new(),
        seeders: 0,
        leechers: 0,
        next_upload_speed: 1000,
        interval: 1800,
        error_count: 2,
        encoding: None,
        min_interval: None,
        tracker_id: None,
        source_path: None,
    }
}

#[test]
fn test_tracker_request_creation() {
    let request = TrackerRequest {
        info_hash: [1u8; 20],
        peer_id: *b"TEST_PEER_ID_1234567",
        downloaded: 1024,
        left: 2048,
        uploaded: 512,
        event: Some(Event::Started),
        key: 42,
        num_want: 30,
        port: 6881,
    };

    assert_eq!(request.downloaded, 1024);
    assert_eq!(request.port, 6881);
}

#[test]
fn test_resolve_tracker_addr_invalid_scheme() {
    let result = udp_target("http://tracker.example.com:6969/announce");
    assert!(matches!(result, Err(TrackerError::ParseError)));
}

#[test]
fn test_resolve_tracker_addr_valid() {
    let (host, port) = udp_target("udp://localhost:6969/announce").unwrap();
    assert_eq!(host, "localhost");
    assert_eq!(port, 6969);
}

#[test]
fn test_resolve_tracker_addr_no_port() {
    let (host, port) = udp_target("udp://localhost/announce").unwrap();
    assert_eq!(host, "localhost");
    assert_eq!(port, 80);
}

#[test]
fn test_announce_packet_structure() {
    let connection_id: u64 = 0x41727101980;
    let transaction_id: u32 = 12345;
    let request = TrackerRequest {
        info_hash: [0u8; 20],
        peer_id: [0u8; 20],
        downloaded: 0,
        left: 0,
        uploaded: 0,
        event: None,
        key: 0,
        num_want: 50,
        port: 6881,
    };
    let packet = announce_request(connection_id, transaction_id, &request);
    assert_eq!(packet.len(), 98);
}

#[test]
fn announce_packet_fields() {
    let request = TrackerRequest {
        info_hash: [1u8; 20],
        peer_id: *b"TEST_PEER_ID_1234567",
        downloaded: 2,
        left: 3,
        uploaded: 0x0102030405060708,
        event: Some(Event::Stopped),
        key: 0xAABBCCDD,
        num_want: -1,
        port: 6881,
    };
    let p = announce_request(0x1122334455667788, 9, &request);
    assert_eq!(&p[0..8], &[0x11, 0x22, 0x33, 0x44, 0x55, 0x66, 0x77, 0x88]);
    assert_eq!(&p[8..12], &[0, 0, 0, 1]);
    assert_eq!(&p[12..16], &[0, 0, 0, 9]);
    assert_eq!(&p[16..36], &[1u8; 20]);
    assert_eq!(&p[36..56], b"TEST_PEER_ID_1234567");
    assert_eq!(&p[56..64], &[0, 0, 0, 0, 0, 0, 0, 2]);
    assert_eq!(&p[64..72], &[0, 0, 0, 0, 0, 0, 0, 3]);
    assert_eq!(&p[72..80], &[1, 2, 3, 4, 5, 6, 7, 8]);
    assert_eq!(&p[80..84], &[0, 0, 0, 3]);
    assert_eq!(&p[84..88], &[0, 0, 0, 0]);
    assert_eq!(&p[88..92], &[0xAA, 0xBB, 0xCC, 0xDD]);
    assert_eq!(&p[92..96], &[0xFF, 0xFF, 0xFF, 0xFF]);
    assert_eq!(&p[96..98], &[0x1A, 0xE1]);
}

#[test]
fn connect_packet_bytes() {
    let p = connect_request(0x01020304);
    assert_eq!(p, vec![0x00, 0x00, 0x04, 0x17, 0x27, 0x10, 0x19, 0x80, 0, 0, 0, 0, 1, 2, 3, 4]);
}

#[test]
fn connect_reply_reading() {
    let mut reply = vec![0, 0, 0, 0, 0, 0, 0, 5];
    reply.extend_from_slice(&[9, 8, 7, 6, 5, 4, 3, 2]);
    assert_eq!(parse_connect_response(&reply, 5).unwrap(), 0x0908070605040302);
    assert!(matches!(parse_connect_response(&reply, 6), Err(TrackerError::InvalidResponse)));
    assert!(matches!(parse_connect_response(&reply[..15], 5), Err(TrackerError::InvalidResponse)));
    let mut wrong_action = reply.clone();
    wrong_action[3] = 1;
    assert!(matches!(parse_connect_response(&wrong_action, 5), Err(TrackerError::InvalidResponse)));
}

#[test]
fn announce_reply_reading() {
    let mut reply = vec![0, 0, 0, 1, 0, 0, 0, 7];
    reply.extend_from_slice(&[0, 0, 7, 8]);
    reply.extend_from_slice(&[0, 0, 0, 3]);
    reply.extend_from_slice(&[0, 0, 0, 12]);
    reply.extend_from_slice(&[10, 0, 0, 1, 0x1A, 0xE1]);
    reply.extend_from_slice(&[192, 168, 1, 2, 0, 80]);
    let resp: TrackerResponse = parse_announce_response(&reply, 7).unwrap();
    assert_eq!(resp.interval, 1800);
    assert_eq!(resp.leechers, 3);
    assert_eq!(resp.seeders, 12);
    assert_eq!(resp.peers.len(), 2);
    assert_eq!(resp.peers[0].ip, [10, 0, 0, 1]);
    assert_eq!(resp.peers[0].port, 6881);
    assert_eq!(resp.peers[1].ip, [192, 168, 1, 2]);
    assert_eq!(resp.peers[1].port, 80);

    assert!(matches!(parse_announce_response(&reply, 8), Err(TrackerError::InvalidResponse)));
    assert!(matches!(parse_announce_response(&reply[..19], 7), Err(TrackerError::InvalidResponse)));
    assert!(matches!(parse_announce_response(&reply[..25], 7), Err(TrackerError::InvalidResponse)));
}

#[test]
fn announce_error_reply() {
    let mut reply = vec![0, 0, 0, 3, 0, 0, 0, 99];
    reply.extend_from_slice(b"torrent not registered");
    match parse_announce_response(&reply, 7) {
        Err(TrackerError::TrackerError(m)) => assert_eq!(m, "torrent not registered"),
        other => panic!("unexpected {:?}", other),
    }
}

#[test]
fn error_messages() {
    assert_eq!(TrackerError::Timeout.message(), "connection timed out");
    assert_eq!(TrackerError::InvalidResponse.message(), "invalid response from tracker");
    assert_eq!(TrackerError::TrackerError(String::from("x")).message(), "tracker error: x");
    assert_eq!(TrackerError::ParseError.message(), "failed to parse tracker URL");
    let io = TrackerError::from(std::io::Error::new(std::io::ErrorKind::Other, "boom"));
    assert_eq!(io.message(), "IO error: boom");
    match unresolved_host("tracker.example.com") {
        TrackerError::TrackerError(m) => assert_eq!(m, "Could not resolve hostname: tracker.example.com"),
        other => panic!("unexpected {:?}", other),
    }
}

#[test]
fn peer_ids_are_cut_or_padded() {
    assert_eq!(&peer_id_array("-TR3000-0123456789abcdef"), b"-TR3000-0123456789ab");
    let mut expected = [0u8; 20];
    expected[..3].copy_from_slice(b"abc");
    assert_eq!(peer_id_array("abc"), expected);
}

#[test]
fn request_for_a_torrent() {
    let torrent = make_torrent();
    let client = ClientProfile { query: String::new(), key: 5, peer_id: String::from("-TR3000-0123456789ab") };
    let mut config = Config::default();
    config.port = 7000;
    config.numwant = None;
    let r = udp_request_after(&torrent, None, &client, &config, 30);
    assert_eq!(r.info_hash, [7u8; 20]);
    assert_eq!(&r.peer_id, b"-TR3000-0123456789ab");
    assert_eq!(r.uploaded, 30000);
    assert_eq!(r.key, 5);
    assert_eq!(r.num_want, 80);
    assert_eq!(r.port, 7000);
    let r = udp_request_after(&torrent, Some(Event::Started), &client, &config, 30);
    assert_eq!(r.uploaded, 0);
}

#[test]
fn outcome_of_an_announce() {
    let mut torrent = make_torrent();
    let now = std::time::Instant::now();
    let resp = TrackerResponse { interval: 900, leechers: 70000, seeders: 4, peers: vec![] };
    apply_udp_outcome(&mut torrent, Ok(resp), 50, now);
    assert_eq!(torrent.uploaded, 150);
    assert_eq!(torrent.interval, 900);
    assert_eq!(torrent.seeders, 4);
    assert_eq!(torrent.leechers, (70000u32 % 65536) as u16);
    assert_eq!(torrent.error_count, 0);
    assert_eq!(torrent.last_announce, now);
    apply_udp_outcome(&mut torrent, Err(TrackerError::Timeout), 50, now);
    assert_eq!(torrent.error_count, 1);
    assert_eq!(torrent.uploaded, 150);
}

#[test]
fn transaction_ids() {
    assert_eq!(transaction_id_from(10, 5), 15);
    assert_eq!(transaction_id_from(0x1_0000_0005, 1), 6);
    assert_eq!(transaction_id_from(0xFFFF_FFFF, 2), 1);
}

#[test]
fn address_preference() {
    assert_eq!(preferred_address(&vec![]), None);
    assert_eq!(preferred_address(&vec![false, true, true]), Some(1));
    assert_eq!(preferred_address(&vec![false, false]), Some(0));
}

#[test]
fn big_endian_reading() {
    assert_eq!(read_be(&[1, 2, 3, 4, 5], 1, 3), 0x020304);
    assert_eq!(read_be(&[0xFF; 8], 0, 8), u64::MAX);
}
