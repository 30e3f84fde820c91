use ratioup::announcer::tracker::{
    apply_http_update, build_url, build_url_after, upload_report, is_supported_url, is_udp_url, parse_http_response, ClientProfile,
    Event, TrackerHttpUpdate,
};
use ratioup::config::Config;
use ratioup::torrent::Torrent;
use std::str::FromStr;

fn make_torrent() -> Torrent {
    Torrent {
        name: String::from("test"),
        urls: vec![String::from("http://tracker.example.com/announce")],
        length: 1024,
        private: false,
        uploaded: 0,
        last_announce: std::time::Instant::now(),
        info_hash: [0u8; 20],
        info_hash_urlencoded: String::new(),
        seeders: 0,
        leechers: 0,
        next_upload_speed: 1024,
        interval: 1800,
        error_count: 0,
        encoding: None,
        min_interval: None,
        tracker_id: None,
        source_path: None,
    }
}

fn make_client() -> ClientProfile {
    let mut client = fake_torrent_client::Client::default();
    client.build(fake_torrent_client::clients::ClientVersion::from_str("Transmission_3_00").unwrap());
    ClientProfile { query: client.query.clone(), key: client.key, peer_id: client.peer_id.clone() }
}

#[test]
pub fn test_supported_url() {
    // HTTP and HTTPS
    assert!(is_supported_url("http://localhost/?param=test"));
    assert!(is_supported_url("https://localhost/?param=test"));
    assert!(is_supported_url("http://another-host/?param=test"));
    assert!(is_supported_url("http://some-host.tld/?param=test"));
    assert!(is_supported_url("https://some-host.tld/?param=test"));

    // UDP is now supported
    assert!(is_supported_url("udp://tracker.example.com:1337/announce"));
    assert!(is_supported_url("udp://udp-host.tld:6969/announce"));

    // .local TLD should be rejected
    assert!(!is_supported_url("http://myserver.local/announce"));
    assert!(!is_supported_url("udp://tracker.local:6969/announce"));

    // IP addresses are supported
    assert!(is_supported_url("http://192.168.1.1:8080/announce"));
    assert!(is_supported_url("udp://192.168.1.1:6969/announce"));

    // Unsupported schemes
    assert!(!is_supported_url("wss://tracker.example.com/announce"));

    // UDP without explicit port
    assert!(!is_supported_url("udp://tracker.example.com/announce"));
    assert!(!is_supported_url("udp://192.168.1.1/announce"));

    // Malformed / unparsable
    assert!(!is_supported_url("not-a-url"));
    assert!(!is_supported_url(""));
}

// --- parse_http_response ---

#[test]
fn test_parse_http_response_normal() {
    let bytes = b"d8:completei10e10:incompletei5e8:intervali1800e12:min intervali900ee";
    let update = parse_http_response(bytes).unwrap();
    assert_eq!(update.interval, Some(1800));
    assert_eq!(update.min_interval, Some(900));
    assert_eq!(update.seeders, Some(10));
    assert_eq!(update.leechers, Some(5));
    assert!(update.failure_reason.is_none());
    assert!(update.warning_message.is_none());
}

#[test]
fn test_parse_http_response_failure_reason() {
    let bytes = b"d14:failure reason12:invalid hashe";
    let update = parse_http_response(bytes).unwrap();
    assert_eq!(update.failure_reason.as_deref(), Some("invalid hash"));
    assert!(update.interval.is_none());
}

#[test]
fn test_parse_http_response_warning_message() {
    let bytes = b"d8:intervali1800e15:warning message9:slow downe";
    let update = parse_http_response(bytes).unwrap();
    assert!(update.warning_message.is_some());
    assert!(update.failure_reason.is_none());
    assert_eq!(update.interval, Some(1800));
}

#[test]
fn test_parse_http_response_tracker_id() {
    let bytes = b"d8:intervali1800e10:tracker id6:abc123e";
    let update = parse_http_response(bytes).unwrap();
    assert_eq!(update.interval, Some(1800));
    assert!(update.tracker_id.is_none());
}

#[test]
fn test_parse_http_response_non_dict() {
    let result = parse_http_response(b"i42e");
    assert!(result.is_err());
}

#[test]
fn test_parse_http_response_invalid_bencode() {
    let result = parse_http_response(b"not bencode");
    assert!(result.is_err());
}

#[test]
fn parse_http_response_error_texts() {
    assert_eq!(parse_http_response(b"i42e").unwrap_err(), "response is not a dictionary");
    assert_eq!(parse_http_response(b"not bencode").unwrap_err(), "InvalidFormat");
    assert_eq!(parse_http_response(b"d8:interval").unwrap_err(), "UnexpectedEndOfInput");
}

#[test]
fn parse_http_response_failure_reason_not_utf8() {
    let update = parse_http_response(b"d14:failure reason2:\xff\x01e").unwrap();
    assert_eq!(update.failure_reason.as_deref(), Some("[255, 1]"));
}

#[test]
fn parse_http_response_tracker_id_with_underscore() {
    let update = parse_http_response(b"d10:tracker_id6:abc123e").unwrap();
    assert_eq!(update.tracker_id.as_deref(), Some("abc123"));
}

// --- build_url ---

#[test]
fn test_build_url_separator_without_query() {
    let client = make_client();
    let torrent = make_torrent();
    let url = build_url("http://tracker.example.com/announce", &torrent, None, &client, None);
    assert!(url.starts_with("http://tracker.example.com/announce?"), "expected '?' separator, got: {url}");
}

#[test]
fn test_build_url_separator_with_existing_query() {
    let client = make_client();
    let torrent = make_torrent();
    let url = build_url("http://tracker.example.com/announce?passkey=secret", &torrent, None, &client, None);
    assert!(
        url.starts_with("http://tracker.example.com/announce?passkey=secret&"),
        "expected '&' separator, got: {url}"
    );
}

#[test]
fn test_build_url_started_event_uploaded_zero() {
    let client = make_client();
    let torrent = make_torrent();
    let url = build_url("http://tracker.example.com/announce", &torrent, Some(Event::Started), &client, None);
    assert!(url.contains("event=started"), "expected event=started in: {url}");
    assert!(url.contains("uploaded=0"), "started event must report uploaded=0 in: {url}");
}

#[test]
fn test_build_url_stopped_event() {
    let client = make_client();
    let torrent = make_torrent();
    let url = build_url("http://tracker.example.com/announce", &torrent, Some(Event::Stopped), &client, None);
    assert!(url.contains("event=stopped"), "expected event=stopped in: {url}");
}

#[test]
fn test_build_url_no_placeholders_remain() {
    let client = make_client();
    let torrent = make_torrent();
    let url = build_url("http://tracker.example.com/announce", &torrent, Some(Event::Started), &client, None);
    assert!(!url.contains('{'), "unreplaced placeholder in: {url}");
    assert!(!url.contains('}'), "unreplaced placeholder in: {url}");
}

#[test]
fn build_url_after_exact_text() {
    let client = ClientProfile {
        query: String::from("info_hash={infohash}&peer_id={peerid}&port={port}&uploaded={uploaded}&downloaded={downloaded}&left={left}&key={key}&event={event}&numwant={numwant}&ipv6={ipv6}"),
        key: 77,
        peer_id: String::from("-TR3000-abc"),
    };
    let mut torrent = make_torrent();
    torrent.info_hash_urlencoded = String::from("%AB%CD");
    let url = build_url_after("http://t.example/a", &torrent, None, &client, None, 10);
    assert_eq!(
        url,
        "http://t.example/a?info_hash=%AB%CD&peer_id=-TR3000-abc&port=55555&uploaded=10240&downloaded=0&left=0&key=77&event=&numwant=80&"
    );
    let mut config = Config::default();
    config.port = 6881;
    config.numwant = Some(30);
    let url = build_url_after("http://t.example/a", &torrent, Some(Event::Started), &client, Some(&config), 10);
    assert_eq!(
        url,
        "http://t.example/a?info_hash=%AB%CD&peer_id=-TR3000-abc&port=6881&uploaded=0&downloaded=0&left=0&key=77&event=started&numwant=30&"
    );
}

#[test]
fn build_url_after_saturates_the_upload() {
    let client = ClientProfile { query: String::from("u={uploaded}"), key: 0, peer_id: String::new() };
    let mut torrent = make_torrent();
    torrent.next_upload_speed = u32::MAX;
    let url = build_url_after("http://t.example/a", &torrent, None, &client, None, u64::MAX);
    assert_eq!(url, format!("http://t.example/a?u={}", u64::MAX));
}

#[test]
fn udp_urls_are_recognised_in_any_case() {
    assert!(is_udp_url("udp://tracker.example.com:6969/announce"));
    assert!(is_udp_url("UDP://tracker.example.com:6969/announce"));
    assert!(!is_udp_url("http://tracker.example.com/announce"));
}

#[test]
fn apply_http_update_sets_fields_and_returns_the_wait() {
    let mut torrent = make_torrent();
    torrent.error_count = 3;
    let now = std::time::Instant::now();
    let update = TrackerHttpUpdate {
        failure_reason: None,
        warning_message: None,
        interval: Some(600),
        min_interval: Some(900),
        tracker_id: Some(String::from("id1")),
        seeders: Some(4),
        leechers: Some(7),
    };
    torrent.uploaded = 100;
    let wait = apply_http_update(&mut torrent, Ok(update), 50, now);
    assert_eq!(wait, 900);
    assert_eq!(torrent.uploaded, 150);
    assert_eq!(torrent.interval, 600);
    assert_eq!(torrent.min_interval, Some(900));
    assert_eq!(torrent.tracker_id.as_deref(), Some("id1"));
    assert_eq!(torrent.seeders, 4);
    assert_eq!(torrent.leechers, 7);
    assert_eq!(torrent.error_count, 0);
    assert_eq!(torrent.last_announce, now);
}

#[test]
fn apply_http_update_counts_a_failure() {
    let mut torrent = make_torrent();
    let before = torrent.last_announce;
    let update = parse_http_response(b"d14:failure reason12:invalid hashe").unwrap();
    let wait = apply_http_update(&mut torrent, Ok(update), 50, std::time::Instant::now());
    assert_eq!(wait, 1800);
    assert_eq!(torrent.error_count, 1);
    assert_eq!(torrent.uploaded, 0);
    assert_eq!(torrent.last_announce, before);
    let wait = apply_http_update(&mut torrent, Err(String::from("bad")), 50, std::time::Instant::now());
    assert_eq!(wait, 1800);
    assert_eq!(torrent.error_count, 1);
    assert_eq!(torrent.uploaded, 0);
}

#[test]
fn upload_reported() {
    let torrent = make_torrent();
    assert_eq!(upload_report(&torrent, None, 10), 10240);
    assert_eq!(upload_report(&torrent, Some(Event::Started), 10), 0);
    assert_eq!(upload_report(&torrent, Some(Event::Stopped), 3), 3072);
}
