use ratioup::announcer::scheduler::{
    add_jitter, jitter_with, min_nonzero_remaining, min_remaining, next_announce_delay, time_until_announce, time_until_announce_after,
};
use ratioup::torrent::Torrent;

fn make_torrent(interval: u64, min_interval: Option<u64>) -> Torrent {
    Torrent {
        name: String::from("test"),
        urls: vec![String::from("http://t.example.com/announce")],
        length: 1024,
        private: false,
        uploaded: 0,
        last_announce: std::time::Instant::now(),
        info_hash: [0u8; 20],
        info_hash_urlencoded: String::new(),
        seeders: 0,
        leechers: 0,
        next_upload_speed: 0,
        interval,
        error_count: 0,
        encoding: None,
        min_interval,
        tracker_id: None,
        source_path: None,
    }
}

// --- time_until_announce ---

#[test]
fn test_time_until_announce_full_interval_remaining() {
    let t = make_torrent(1800, None);
    let remaining = time_until_announce(&t);
    assert!((1799..=1800).contains(&remaining), "expected ≈1800, got {remaining}");
}

#[test]
fn test_time_until_announce_zero_interval() {
    let t = make_torrent(0, None);
    assert_eq!(time_until_announce(&t), 0);
}

#[test]
fn test_time_until_announce_min_interval_dominates() {
    let t = make_torrent(1800, Some(3600));
    let remaining = time_until_announce(&t);
    assert!((3599..=3600).contains(&remaining), "expected ≈3600, got {remaining}");
}

#[test]
fn test_time_until_announce_saturates_at_zero() {
    let mut t = make_torrent(0, None);
    t.last_announce = std::time::Instant::now() - std::time::Duration::from_secs(9999);
    assert_eq!(time_until_announce(&t), 0);
}

#[test]
fn time_until_announce_after_exact_values() {
    let t = make_torrent(1800, Some(3600));
    assert_eq!(time_until_announce_after(&t, 0), 3600);
    assert_eq!(time_until_announce_after(&t, 600), 3000);
    assert_eq!(time_until_announce_after(&t, 3600), 0);
    assert_eq!(time_until_announce_after(&t, 9999), 0);
    let t = make_torrent(1800, Some(60));
    assert_eq!(time_until_announce_after(&t, 100), 1700);
}

// --- add_jitter ---

#[test]
fn test_add_jitter_short_interval() {
    assert_eq!(add_jitter(10), 10);
    assert_eq!(add_jitter(19), 19);
    assert_eq!(add_jitter(0), 0);
}

#[test]
fn test_add_jitter_bounds() {
    let interval = 1000u64;
    let min_expected = 950;
    let max_expected = 1050;
    for _ in 0..100 {
        let result = add_jitter(interval);
        assert!(
            result >= min_expected && result <= max_expected,
            "Jitter {} out of bounds [{}, {}]",
            result,
            min_expected,
            max_expected
        );
    }
}

#[test]
fn test_add_jitter_typical_tracker_interval() {
    let interval = 1800u64;
    let min_expected = 1710;
    let max_expected = 1890;
    for _ in 0..100 {
        let result = add_jitter(interval);
        assert!(
            result >= min_expected && result <= max_expected,
            "Jitter {} out of bounds [{}, {}]",
            result,
            min_expected,
            max_expected
        );
    }
}

#[test]
fn jitter_with_exact_values() {
    assert_eq!(jitter_with(1000, 0), 950);
    assert_eq!(jitter_with(1000, 50), 1000);
    assert_eq!(jitter_with(1000, 100), 1050);
    assert_eq!(jitter_with(19, 0), 19);
    assert_eq!(jitter_with(u64::MAX, 2 * (u64::MAX / 20)), u64::MAX);
}

#[test]
fn add_jitter_near_the_top_stays_in_range() {
    let r = add_jitter(u64::MAX);
    assert!(r >= u64::MAX - u64::MAX / 20);
}

// --- the next round ---

#[test]
fn min_remaining_of_lists() {
    assert_eq!(min_remaining(&vec![]), u64::MAX);
    assert_eq!(min_remaining(&vec![30, 10, 20]), 10);
}

#[test]
fn next_announce_delay_falls_back() {
    assert_eq!(next_announce_delay(&vec![], 1800), 1800);
    assert_eq!(next_announce_delay(&vec![0, 0], 1800), 1800);
    assert_eq!(next_announce_delay(&vec![0, 100], 1800), 0);
    assert_eq!(next_announce_delay(&vec![0, 1800], 5), 0);
    assert_eq!(next_announce_delay(&vec![15, 100], 1800), 15);
    let d = next_announce_delay(&vec![1000, 2000], 1800);
    assert!((950..=1050).contains(&d));
}

#[test]
fn least_nonzero_remaining() {
    assert_eq!(min_nonzero_remaining(&vec![]), None);
    assert_eq!(min_nonzero_remaining(&vec![0, 0]), None);
    assert_eq!(min_nonzero_remaining(&vec![0, 1800, 30]), Some(30));
}
