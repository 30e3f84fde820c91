use ratioup::directory::{has_torrent_suffix, torrent_files};
use ratioup::json_output::{stats_json, total_uploaded};
use ratioup::config::Config;
use ratioup::torrent::Torrent;
use ratioup::watcher::{
    admission, find_removed, fs_event, is_torrent_path, matches_removed, position_of_hash, remove_with_hash, Admission,
    FsChange, FsEvent,
};

fn torrent(name: &str, hash: &str, source: Option<&str>) -> Torrent {
    Torrent {
        name: String::from(name),
        urls: vec![String::from("http://t.example.com/announce")],
        length: 0,
        private: false,
        uploaded: 0,
        last_announce: std::time::Instant::now(),
        info_hash: [0u8; 20],
        info_hash_urlencoded: String::from(hash),
        seeders: 0,
        leechers: 0,
        next_upload_speed: 0,
        interval: 1800,
        error_count: 0,
        encoding: None,
        min_interval: None,
        tracker_id: None,
        source_path: source.map(String::from),
    }
}

#[test]
fn test_torrent_extension_check() {
    assert!(is_torrent_path("/tmp/test.torrent"));
    assert!(!is_torrent_path("/tmp/test.txt"));
    assert!(!is_torrent_path("/tmp/test"));
}

#[test]
fn torrent_extension_in_any_case() {
    assert!(is_torrent_path("/tmp/TEST.Torrent"));
    assert!(!is_torrent_path("/tmp/.torrent"));
    assert!(!is_torrent_path("/tmp/test.torrents"));
}

#[test]
fn events_for_changes() {
    assert!(matches!(fs_event(FsChange::Create, String::from("/d/a.torrent")), Some(FsEvent::Added(p)) if p == "/d/a.torrent"));
    assert!(matches!(fs_event(FsChange::Remove, String::from("/d/a.torrent")), Some(FsEvent::Removed(p)) if p == "/d/a.torrent"));
    assert!(fs_event(FsChange::Other, String::from("/d/a.torrent")).is_none());
    assert!(fs_event(FsChange::Create, String::from("/d/a.txt")).is_none());
}

#[test]
fn admission_of_new_torrents() {
    let list = vec![torrent("a", "%AA", None), torrent("b", "%BB", None)];
    assert_eq!(admission(&torrent("c", "%CC", None), &list), Admission::Add);
    assert_eq!(admission(&torrent("c", "%BB", None), &list), Admission::Duplicate);
    let mut no_url = torrent("d", "%DD", None);
    no_url.urls.clear();
    assert_eq!(admission(&no_url, &list), Admission::NoUrl);
    assert_eq!(position_of_hash(&list, "%BB"), Some(1));
    assert_eq!(position_of_hash(&list, "%ZZ"), None);
}

#[test]
fn removed_files_are_matched() {
    let by_source = torrent("x", "%01", Some("/d/file.torrent"));
    assert!(matches_removed(&by_source, "/d/file.torrent"));
    assert!(!matches_removed(&by_source, "/d/other.torrent"));
    assert!(matches_removed(&by_source, "/d//file.torrent"));
    let by_name = torrent("ubuntu-24.04", "%02", None);
    assert!(matches_removed(&by_name, "/d/ubuntu-24.04.torrent"));
    assert!(matches_removed(&by_name, "/d/ubuntu.torrent"));
    assert!(!matches_removed(&by_name, "/d/debian.torrent"));
    let list = vec![by_source, by_name];
    assert_eq!(find_removed(&list, "/d/ubuntu.torrent"), Some(1));
    assert_eq!(find_removed(&list, "/d/none.torrent"), None);
}

#[test]
fn removing_by_hash_keeps_the_others_in_order() {
    let mut list = vec![torrent("a", "%AA", None), torrent("b", "%BB", None), torrent("c", "%AA", None)];
    remove_with_hash(&mut list, "%AA");
    assert_eq!(list.len(), 1);
    assert_eq!(list[0].name, "b");
}

#[test]
fn directory_names() {
    assert!(has_torrent_suffix("a.torrent"));
    assert!(has_torrent_suffix("A.TORRENT"));
    assert!(!has_torrent_suffix("a.torrent.part"));
    let names = vec![String::from("x.torrent"), String::from("y.txt"), String::from("Z.Torrent")];
    assert_eq!(torrent_files(&names), vec![String::from("x.torrent"), String::from("Z.Torrent")]);
}

#[test]
fn statistics_file() {
    let mut a = torrent("a", "%AA", None);
    a.uploaded = 10;
    let mut b = torrent("b", "%BB", None);
    b.uploaded = 32;
    let list = vec![a, b];
    assert_eq!(total_uploaded(&list), Some(42));
    let mut config = Config::default();
    config.min_upload_rate = 1;
    config.max_upload_rate = 2;
    let text = stats_json("2024-01-01T00:00:00+00:00", "transmission-3.00", &config, &list);
    let expected = format!(
        "{{\"started\":\"2024-01-01T00:00:00+00:00\",\"client\":\"transmission-3.00\",\"min_upload_rate\":1,\"max_upload_rate\":2,\"torrents\":[\n{},{}\n],\"total_uploaded\":42}}",
        list[0].to_json(),
        list[1].to_json()
    );
    assert_eq!(text, expected);
    let mut big = torrent("c", "%CC", None);
    big.uploaded = u64::MAX;
    assert_eq!(total_uploaded(&vec![big, torrent("d", "%DD", None)]), Some(u64::MAX));
    let mut big2 = torrent("e", "%EE", None);
    big2.uploaded = u64::MAX;
    let mut one = torrent("f", "%FF", None);
    one.uploaded = 1;
    assert_eq!(total_uploaded(&vec![big2, one]), None);
}

#[test]
fn statistics_file_without_torrents() {
    let config = Config::default();
    let text = stats_json("t", "", &config, &vec![]);
    assert_eq!(text, "{\"started\":\"t\",\"client\":\"\",\"min_upload_rate\":8192,\"max_upload_rate\":2097152,\"torrents\":[\n\n],\"total_uploaded\":0}");
}
