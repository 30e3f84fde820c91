use ratioup::bencode::{encode_bencode_value, BencodeDecoder, BencodeDict, BencodeValue};
use ratioup::config::Config;
use ratioup::torrent::{File, Info, Torrent, TorrentError};
use ratioup::utils::{get_sha1, percent_encoding};

fn base_torrent() -> Torrent {
    Torrent {
        name: String::from("Test torrent"),
        length: 262144,
        private: false,
        uploaded: 0,
        last_announce: std::time::Instant::now(),
        info_hash: [0; 20],
        info_hash_urlencoded: String::from("01234567"),
        seeders: 0,
        leechers: 1,
        next_upload_speed: 0,
        interval: 1800,
        urls: Vec::with_capacity(0),
        error_count: 0,
        encoding: None,
        min_interval: None,
        tracker_id: None,
        source_path: None,
    }
}

#[test]
fn test_can_download_or_upload() {
    let mut t = base_torrent();
    assert!(!t.can_upload());
    t.leechers = 5;
    assert!(t.can_upload());
    t.leechers = 0;
    t.seeders = 1;
    assert!(!t.can_upload());
    t.seeders = 4;
    t.leechers = 8;
    assert!(t.can_upload());
}

#[test]
fn test_get_average_speeds() {
    let mut t = base_torrent();
    t.seeders = 4;
    t.leechers = 16;
    let speed = t.uploaded(16, 64);
    assert!(speed > 0);
    t.interval = 1;
    assert!((16..=64).contains(&speed));
    let speed = t.uploaded(16, 64);
    assert!((16..=64).contains(&speed));
}

#[test]
fn uploaded_without_leechers_is_zero() {
    let mut t = base_torrent();
    t.leechers = 0;
    t.next_upload_speed = 7;
    assert_eq!(t.uploaded(16, 64), 0);
    assert_eq!(t.next_upload_speed, 7);
}

#[test]
fn compute_speeds_draws_in_the_configured_range() {
    let mut t = base_torrent();
    t.leechers = 3;
    let mut config = Config::default();
    config.min_upload_rate = 100;
    config.max_upload_rate = 200;
    t.compute_speeds(&config);
    assert!((100..200).contains(&t.next_upload_speed));
}

#[test]
fn should_announce_when_the_interval_is_zero() {
    let mut t = base_torrent();
    t.interval = 0;
    assert!(t.shound_announce());
    t.interval = 1800;
    assert!(!t.shound_announce());
    assert!(t.is_due(1800));
    assert!(!t.is_due(1799));
    t.interval = 10;
    t.min_interval = Some(100);
    assert!(!t.is_due(50));
    assert!(t.is_due(100));
}

#[test]
fn json_line_without_urls() {
    let t = base_torrent();
    assert_eq!(
        t.to_json(),
        "\t{\"name\": \"Test torrent\", \"length\": 262144, \"private\": false, \"uploaded\": 0, \"seeders\": 0, \"leechers\": 1, \"next_upload_speed\": 0, \"urls\": []}\n"
    );
}

#[test]
fn effective_interval_takes_the_greater() {
    let mut t = base_torrent();
    assert_eq!(t.effective_interval(), 1800);
    t.min_interval = Some(3600);
    assert_eq!(t.effective_interval(), 3600);
    t.min_interval = Some(60);
    assert_eq!(t.effective_interval(), 1800);
}

#[test]
fn json_line() {
    let mut t = base_torrent();
    t.name = String::from("say \"hi\"");
    t.urls = vec![String::from("http://a/announce"), String::from("udp://b:1/announce")];
    t.uploaded = 5;
    t.seeders = 2;
    t.leechers = 3;
    t.next_upload_speed = 9;
    assert_eq!(
        t.to_json(),
        "\t{\"name\": \"say \\\"hi\\\"\", \"length\": 262144, \"private\": false, \"uploaded\": 5, \"seeders\": 2, \"leechers\": 3, \"next_upload_speed\": 9, \"urls\": [\"http://a/announce\", \"udp://b:1/announce\"]}\n"
    );
}

fn bytes(s: &[u8]) -> BencodeValue {
    BencodeValue::ByteString(s.to_vec())
}

fn enc(s: &str) -> Vec<u8> {
    let mut v = format!("{}:", s.len()).into_bytes();
    v.extend_from_slice(s.as_bytes());
    v
}

fn metainfo_bytes() -> (Vec<u8>, Vec<u8>) {
    let mut info = BencodeDict::new();
    info.insert(b"name".to_vec(), bytes(b"file.bin"));
    info.insert(b"length".to_vec(), BencodeValue::Integer(1000));
    info.insert(b"piece length".to_vec(), BencodeValue::Integer(16384));
    info.insert(b"pieces".to_vec(), bytes(&[3u8; 20]));
    let mut info_bytes = Vec::new();
    encode_bencode_value(&BencodeValue::Dictionary(info), &mut info_bytes).unwrap();
    let mut data = b"d".to_vec();
    data.extend(enc("announce"));
    data.extend(enc("http://a.example/ann"));
    data.extend(enc("announce-list"));
    data.extend(b"ll".to_vec());
    data.extend(enc("http://a.example/ann"));
    data.extend(enc("udp://b.example:6969/ann"));
    data.extend(b"el".to_vec());
    data.extend(enc("http://c.local/ann"));
    data.extend(b"ee".to_vec());
    data.extend(enc("encoding"));
    data.extend(enc("UTF-8"));
    data.extend(enc("info"));
    data.extend_from_slice(&info_bytes);
    data.extend(b"e".to_vec());
    (data, info_bytes)
}

#[test]
fn metainfo_is_read() {
    let (data, info_bytes) = metainfo_bytes();
    let t = Torrent::from_bencode(&data).unwrap();
    assert_eq!(t.urls, vec![String::from("http://a.example/ann"), String::from("udp://b.example:6969/ann")]);
    assert_eq!(t.encoding.as_deref(), Some("UTF-8"));
    assert_eq!(t.info_hash_urlencoded, percent_encoding(&get_sha1(&info_bytes)));
    assert_eq!(t.info_hash, [0u8; 20]);
    assert_eq!(t.name, "");
    assert_eq!(t.interval, 4_294_967_295);
    assert_eq!(t.error_count, 0);
}

#[test]
fn metainfo_errors() {
    assert!(matches!(Torrent::from_bencode(b"i1e"), Err(TorrentError::NotADictionary)));
    assert!(matches!(Torrent::from_bencode(b"x"), Err(TorrentError::Decode(_))));
    assert!(matches!(Torrent::from_bencode(b"d8:announce3:abce"), Err(TorrentError::MissingField(f)) if f == "info"));
    assert!(matches!(Torrent::from_bencode(b"d8:announcei1e4:infodee"), Err(TorrentError::InvalidField(f)) if f == "announce"));
    assert!(matches!(Torrent::from_bencode(b"d4:infoi1ee"), Err(TorrentError::InvalidField(f)) if f == "info"));
    assert!(matches!(Torrent::from_bencode(b"d4:infod"), Err(TorrentError::Decode(_))));
}

#[test]
fn info_single_file() {
    let (_, info_bytes) = metainfo_bytes();
    let value = BencodeDecoder::new(&info_bytes).decode().unwrap();
    let info = Info::from_bencode(&value).unwrap();
    assert_eq!(info.name, "file.bin");
    assert_eq!(info.piece_length, 16384);
    assert_eq!(info.pieces, vec![[3u8; 20]]);
    assert!(!info.private);
    assert_eq!(info.files, vec![File { length: 1000, md5sum: None, path: String::from("file.bin") }]);
}

#[test]
fn info_multi_file_and_errors() {
    let data = b"d5:filesld6:lengthi5e6:md5sum3:abced6:lengthi7eee4:name3:dir12:piece lengthi1e6:pieces40:aaaaaaaaaaaaaaaaaaaaaaaaaaaaaaaaaaaaaaaa7:privatei1ee";
    let value = BencodeDecoder::new(data).decode().unwrap();
    let info = Info::from_bencode(&value).unwrap();
    assert_eq!(info.name, "dir");
    assert!(info.private);
    assert_eq!(info.pieces.len(), 2);
    assert_eq!(
        info.files,
        vec![
            File { length: 5, md5sum: Some(String::from("abc")), path: String::new() },
            File { length: 7, md5sum: None, path: String::new() }
        ]
    );

    let short = b"d4:name1:x12:piece lengthi1e6:pieces3:abce";
    let value = BencodeDecoder::new(short).decode().unwrap();
    assert!(matches!(Info::from_bencode(&value), Err(TorrentError::MissingField(f)) if f == "Invalid length for pieces"));

    let no_pieces = b"d4:name1:x12:piece lengthi1ee";
    let value = BencodeDecoder::new(no_pieces).decode().unwrap();
    assert!(matches!(Info::from_bencode(&value), Err(TorrentError::MissingField(f)) if f == "piece length or pieces"));

    let no_length = b"d4:name1:x12:piece lengthi1e6:pieces0:e";
    let value = BencodeDecoder::new(no_length).decode().unwrap();
    assert!(matches!(Info::from_bencode(&value), Err(TorrentError::MissingField(f)) if f == "length"));
}

#[test]
fn file_from_dictionary() {
    let value = BencodeDecoder::new(b"d6:lengthi42ee").decode().unwrap();
    assert_eq!(File::from_bencode(&value).unwrap(), File { length: 42, md5sum: None, path: String::new() });
    let value = BencodeDecoder::new(b"d6:lengthi-1ee").decode().unwrap();
    assert!(matches!(File::from_bencode(&value), Err(TorrentError::InvalidField(f)) if f == "length"));
    let value = BencodeDecoder::new(b"de").decode().unwrap();
    assert!(matches!(File::from_bencode(&value), Err(TorrentError::MissingField(f)) if f == "length"));
}
