use ratioup::config::{init_client, Config, ConfigIssue};

#[test]
fn test_speed_ok() {
    let mut cfg = Config::default();
    assert!(cfg.speeds_ok());

    cfg.min_upload_rate = 8192;
    cfg.max_upload_rate = 8192;
    assert!(cfg.speeds_ok());

    cfg.min_upload_rate = 8192;
    cfg.max_upload_rate = 4096;
    assert!(!cfg.speeds_ok());
}

#[test]
fn defaults() {
    let c = Config::default();
    assert!((49152..65534).contains(&c.port));
    assert_eq!(c.min_upload_rate, 8192);
    assert_eq!(c.max_upload_rate, 2097152);
    assert!(!c.use_pid_file);
    assert_eq!(c.numwant, None);
    assert_eq!(c.client, "Transmission_3_00");
    assert_eq!(c.torrent_dir, ".");
    assert_eq!(c.output_stats, None);
}

#[test]
fn toml_settings_are_read() {
    let c = Config::from_toml(
        "client = \"Deluge_2_0_3\"\nport = 6881\nnumwant = 50\nuse_pid_file = true\nmin_upload_rate = 1000\nmax_upload_rate = 5000\ntorrent_dir = \"/tmp/t\"\noutput_stats = \"/tmp/s.json\"\n",
    );
    assert_eq!(c.client, "Deluge_2_0_3");
    assert_eq!(c.port, 6881);
    assert_eq!(c.numwant, Some(50));
    assert!(c.use_pid_file);
    assert_eq!(c.min_upload_rate, 1000);
    assert_eq!(c.max_upload_rate, 5000);
    assert_eq!(c.torrent_dir, "/tmp/t");
    assert_eq!(c.output_stats.as_deref(), Some("/tmp/s.json"));
}

#[test]
fn toml_rates_are_put_in_order() {
    let c = Config::from_toml("min_upload_rate = 9000\nmax_upload_rate = 100\n");
    assert_eq!(c.min_upload_rate, 100);
    assert_eq!(c.max_upload_rate, 9000);
}

#[test]
fn toml_bad_values_are_ignored_or_stop_the_reading() {
    let c = Config::from_toml("port = 0\nnumwant = 70000\nclient = 3\n");
    assert!((49152..65534).contains(&c.port));
    assert_eq!(c.numwant, None);
    assert_eq!(c.client, "Transmission_3_00");

    // a use_pid_file that is not a boolean stops the reading
    let c = Config::from_toml("use_pid_file = \"yes\"\nmin_upload_rate = 1\ntorrent_dir = \"x\"\n");
    assert_eq!(c.min_upload_rate, 8192);
    assert_eq!(c.torrent_dir, ".");

    // so does a rate that is not an integer; the rates are still put in order
    let c = Config::from_toml("min_upload_rate = 5000000\nmax_upload_rate = \"fast\"\n");
    assert_eq!(c.min_upload_rate, 2097152);
    assert_eq!(c.max_upload_rate, 5000000);
}

#[test]
fn toml_rates_are_cut_to_32_bits() {
    let c = Config::from_toml("min_upload_rate = 4294967297\nmax_upload_rate = 4294967298\n");
    assert_eq!(c.min_upload_rate, 1);
    assert_eq!(c.max_upload_rate, 2);
}

#[test]
fn invalid_toml_gives_the_defaults() {
    let c = Config::from_toml("this is not = = toml");
    assert_eq!(c.min_upload_rate, 8192);
    assert_eq!(c.client, "Transmission_3_00");
}

#[test]
fn order_speeds_swaps() {
    let mut c = Config::default();
    c.min_upload_rate = 10;
    c.max_upload_rate = 5;
    c.order_speeds();
    assert_eq!((c.min_upload_rate, c.max_upload_rate), (5, 10));
}

#[test]
fn client_from_configuration() {
    let c = Config::default();
    let (client, refresh, known) = init_client(&c);
    assert!(known);
    assert_eq!(client.name, "transmission-3.00");
    assert_eq!(refresh, client.key_refresh_every);
    let mut c = Config::default();
    c.client = String::from("NoSuchClient");
    let (client, refresh, known) = init_client(&c);
    assert!(!known);
    assert_eq!(client.name, "INVALID");
    assert_eq!(refresh, None);
}

#[test]
fn load_toml_reports_bad_values_in_order() {
    let (_, issues) = Config::load_toml("port = 0\nnumwant = 70000\nclient = 3\n");
    assert_eq!(issues, vec![ConfigIssue::ClientNotString, ConfigIssue::InvalidPort, ConfigIssue::InvalidNumwant]);
    let (_, issues) = Config::load_toml("port = \"x\"\nnumwant = 1.5\ntorrent_dir = 4\noutput_stats = true\n");
    assert_eq!(
        issues,
        vec![
            ConfigIssue::PortNotInteger,
            ConfigIssue::NumwantNotInteger,
            ConfigIssue::InvalidTorrentDir,
            ConfigIssue::InvalidOutputStats
        ]
    );
}

#[test]
fn load_toml_reports_where_reading_stops() {
    let (_, issues) = Config::load_toml("use_pid_file = \"yes\"\nmin_upload_rate = 1\n");
    assert_eq!(issues, vec![ConfigIssue::UsePidFileNotBool]);
    let (_, issues) = Config::load_toml("min_upload_rate = \"slow\"\n");
    assert_eq!(issues, vec![ConfigIssue::InvalidMinUploadRate]);
    let (c, issues) = Config::load_toml("min_upload_rate = 5000000\nmax_upload_rate = \"fast\"\n");
    assert_eq!(
        issues,
        vec![ConfigIssue::InvalidMaxUploadRate, ConfigIssue::SpeedsSwapped { min: 5000000, max: 2097152 }]
    );
    assert_eq!((c.min_upload_rate, c.max_upload_rate), (2097152, 5000000));
}

#[test]
fn load_toml_reports_swap_and_bad_text() {
    let (c, issues) = Config::load_toml("min_upload_rate = 9000\nmax_upload_rate = 100\n");
    assert_eq!(issues, vec![ConfigIssue::SpeedsSwapped { min: 9000, max: 100 }]);
    assert_eq!((c.min_upload_rate, c.max_upload_rate), (100, 9000));
    let (_, issues) = Config::load_toml("this is not = = toml");
    assert_eq!(issues, vec![ConfigIssue::NotATable]);
    let (c, issues) = Config::load_toml("port = 6881\n");
    assert!(issues.is_empty());
    assert_eq!(c.port, 6881);
}
