//! The configuration: bandwidth, port, client and where torrents and
//! statistics live.
use vstd::prelude::*;

use crate::random::random_u16_in;
use crate::strings::text_eq;

verus! {

#[derive(Debug, Clone)]
pub struct Config {
    /// torrent port
    pub port: u16,
    /// in bytes per second
    pub min_upload_rate: u32,
    /// in bytes per second
    pub max_upload_rate: u32,
    pub use_pid_file: bool,
    /// To set the number of peers we want
    pub numwant: Option<u16>,
    pub client: String,
    /// Directory where torrents are saved. Default is in the working directory.
    pub torrent_dir: String,
    /// Output file path for the JSON file.
    pub output_stats: Option<String>,
}

impl Default for Config {
    /// A random port between 49152 and 65533, uploads between 8 KiB/s and
    /// 2 MiB/s, no PID file, Transmission 3.00 and torrents in `.`.
    fn default() -> (c: Self)
        ensures
            49152 <= c.port < 65534,
            c.min_upload_rate == 8192,
            c.max_upload_rate == 2097152,
            !c.use_pid_file,
            c.numwant is None,
            c.client@ == "Transmission_3_00"@,
            c.torrent_dir@ == "."@,
            c.output_stats is None,
    {
        Config {
            port: random_u16_in(49152, 65534),
            min_upload_rate: 8192,
            max_upload_rate: 2097152,
            use_pid_file: false,
            numwant: None,
            torrent_dir: String::from_str("."),
            client: String::from_str("Transmission_3_00"),
            output_stats: None,
        }
    }
}

impl Config {
    /// The minimum upload rate is not above the maximum.
    pub fn speeds_ok(&self) -> (r: bool)
        ensures
            r == (self.min_upload_rate <= self.max_upload_rate),
    {
        self.min_upload_rate <= self.max_upload_rate
    }
}

/* ---------- loading from TOML ---------- */

/// What the configuration holds, as plain values.
pub struct ConfigView {
    pub port: u16,
    pub min_upload_rate: u32,
    pub max_upload_rate: u32,
    pub use_pid_file: bool,
    pub numwant: Option<u16>,
    pub client: Seq<char>,
    pub torrent_dir: Seq<char>,
    pub output_stats: Option<Seq<char>>,
}

impl View for Config {
    type V = ConfigView;

    open spec fn view(&self) -> ConfigView {
        ConfigView {
            port: self.port,
            min_upload_rate: self.min_upload_rate,
            max_upload_rate: self.max_upload_rate,
            use_pid_file: self.use_pid_file,
            numwant: self.numwant,
            client: self.client@,
            torrent_dir: self.torrent_dir@,
            output_stats: match self.output_stats {
                Some(p) => Some(p@),
                None => None,
            },
        }
    }
}

/// A value of a TOML table as the configuration reads it: a string, an
/// integer, a boolean, or anything else.
#[derive(Debug)]
pub enum TomlValue {
    Str(String),
    Int(i64),
    Bool(bool),
    Other,
}

/// An entry of the root table of a TOML document.
#[derive(Debug)]
pub struct TomlEntry {
    pub key: String,
    pub value: TomlValue,
}

pub enum TomlValueView {
    Str(Seq<char>),
    Int(i64),
    Bool(bool),
    Other,
}

pub struct TomlEntryView {
    pub key: Seq<char>,
    pub value: TomlValueView,
}

impl View for TomlValue {
    type V = TomlValueView;

    open spec fn view(&self) -> TomlValueView {
        match self {
            TomlValue::Str(s) => TomlValueView::Str(s@),
            TomlValue::Int(i) => TomlValueView::Int(*i),
            TomlValue::Bool(b) => TomlValueView::Bool(*b),
            TomlValue::Other => TomlValueView::Other,
        }
    }
}

impl View for TomlEntry {
    type V = TomlEntryView;

    open spec fn view(&self) -> TomlEntryView {
        TomlEntryView { key: self.key@, value: self.value@ }
    }
}

pub open spec fn entries_view(es: Seq<TomlEntry>) -> Seq<TomlEntryView> {
    es.map_values(|e: TomlEntry| e@)
}

/// What `toml::from_str::<toml::Value>` makes of a text, read as the entries
/// of its root table: `None` when the text is not TOML or its root is not a
/// table.
pub uninterp spec fn toml_root(content: Seq<char>) -> Option<Seq<TomlEntryView>>;

/// Calls `toml::from_str::<toml::Value>` and turns the root table into
/// entries, each value kept as a string, an integer, a boolean or `Other`.
/// The contract names the result, a function of the text alone.
#[verifier::external_body]
fn parse_toml(content: &str) -> (r: Option<Vec<TomlEntry>>)
    ensures
        match r {
            Some(es) => toml_root(content@) == Some(entries_view(es@)),
            None => toml_root(content@) is None,
        },
{
    let table = match toml::from_str::<toml::Value>(content) {
        Ok(toml::Value::Table(t)) => t,
        _ => return None,
    };
    let mut entries = Vec::new();
    for (key, value) in table {
        let value = match value {
            toml::Value::String(s) => TomlValue::Str(s),
            toml::Value::Integer(i) => TomlValue::Int(i),
            toml::Value::Boolean(b) => TomlValue::Bool(b),
            _ => TomlValue::Other,
        };
        entries.push(TomlEntry { key, value });
    }
    Some(entries)
}

/// The value of the first entry with key `key`.
pub open spec fn toml_get(es: Seq<TomlEntryView>, key: Seq<char>) -> Option<TomlValueView>
    decreases es.len(),
{
    if es.len() == 0 {
        None
    } else if es[0].key == key {
        Some(es[0].value)
    } else {
        toml_get(es.subrange(1, es.len() as int), key)
    }
}

/// The index of the first entry with key `key`.
fn find_entry(entries: &Vec<TomlEntry>, key: &str) -> (r: Option<usize>)
    ensures
        match r {
            Some(i) => i < entries@.len() && toml_get(entries_view(entries@), key@) == Some(entries@[i as int].value@),
            None => toml_get(entries_view(entries@), key@) is None,
        },
{
    let ghost all = entries_view(entries@);
    let mut i: usize = 0;
    assert(all.subrange(0, all.len() as int) =~= all);
    while i < entries.len()
        invariant
            i <= entries@.len(),
            all == entries_view(entries@),
            toml_get(all, key@) == toml_get(all.subrange(i as int, all.len() as int), key@),
        decreases entries@.len() - i,
    {
        let ghost rest = all.subrange(i as int, all.len() as int);
        assert(rest[0] == entries@[i as int]@);
        assert(rest.subrange(1, rest.len() as int) =~= all.subrange(i + 1, all.len() as int));
        if text_eq(entries[i].key.as_str(), key) {
            return Some(i);
        }
        i = i + 1;
    }
    None
}

/// An integer accepted as a port or a number of peers: 1 to 65535.
pub open spec fn in_u16_range(v: i64) -> bool {
    1 <= v <= 65535
}

/// The settings before the upload rates: `client`, `port` and `numwant`
/// replace the defaults when they hold a string or an integer in range, and
/// are ignored otherwise.
pub open spec fn with_first_settings(c: ConfigView, es: Seq<TomlEntryView>) -> ConfigView {
    let c1 = match toml_get(es, "client"@) {
        Some(TomlValueView::Str(s)) => ConfigView { client: s, ..c },
        _ => c,
    };
    let c2 = match toml_get(es, "port"@) {
        Some(TomlValueView::Int(p)) => if in_u16_range(p) { ConfigView { port: p as u16, ..c1 } } else { c1 },
        _ => c1,
    };
    match toml_get(es, "numwant"@) {
        Some(TomlValueView::Int(n)) => if in_u16_range(n) { ConfigView { numwant: Some(n as u16), ..c2 } } else { c2 },
        _ => c2,
    }
}

/// How reading the table ends: with the configuration read and whether the
/// reading went to the end (it stops at a `use_pid_file` that is not a
/// boolean, or at an upload rate that is not an integer).
pub open spec fn read_table(c: ConfigView, es: Seq<TomlEntryView>) -> (ConfigView, bool) {
    read_pid_file(with_first_settings(c, es), es)
}

/// `use_pid_file`, then the rest.
pub open spec fn read_pid_file(c: ConfigView, es: Seq<TomlEntryView>) -> (ConfigView, bool) {
    match toml_get(es, "use_pid_file"@) {
        Some(TomlValueView::Bool(b)) => read_rates(ConfigView { use_pid_file: b, ..c }, es),
        Some(_) => (c, false),
        None => read_rates(c, es),
    }
}

/// The upload rates (cut to 32 bits), then `torrent_dir` and `output_stats`.
pub open spec fn read_rates(c: ConfigView, es: Seq<TomlEntryView>) -> (ConfigView, bool) {
    match toml_get(es, "min_upload_rate"@) {
        Some(TomlValueView::Int(v)) => read_max_rate(ConfigView { min_upload_rate: v as u32, ..c }, es),
        Some(_) => (c, false),
        None => read_max_rate(c, es),
    }
}

pub open spec fn read_max_rate(c: ConfigView, es: Seq<TomlEntryView>) -> (ConfigView, bool) {
    match toml_get(es, "max_upload_rate"@) {
        Some(TomlValueView::Int(v)) => (read_paths(ConfigView { max_upload_rate: v as u32, ..c }, es), true),
        Some(_) => (c, false),
        None => (read_paths(c, es), true),
    }
}

pub open spec fn read_paths(c: ConfigView, es: Seq<TomlEntryView>) -> ConfigView {
    let c1 = match toml_get(es, "torrent_dir"@) {
        Some(TomlValueView::Str(d)) => ConfigView { torrent_dir: d, ..c },
        _ => c,
    };
    match toml_get(es, "output_stats"@) {
        Some(TomlValueView::Str(p)) => ConfigView { output_stats: Some(p), ..c1 },
        _ => c1,
    }
}

/// Whether a setting that must be of one kind does not stop the reading:
/// it is absent or of that kind.
pub open spec fn absent_or_bool(v: Option<TomlValueView>) -> bool {
    match v {
        Some(TomlValueView::Bool(_)) => true,
        Some(_) => false,
        None => true,
    }
}

pub open spec fn absent_or_int(v: Option<TomlValueView>) -> bool {
    match v {
        Some(TomlValueView::Int(_)) => true,
        Some(_) => false,
        None => true,
    }
}

/// Reading a table goes to the end exactly when `use_pid_file` is absent or
/// a boolean and each upload rate absent or an integer. When it does, every
/// setting of the right kind is taken, whatever else the table holds: a
/// string `torrent_dir` or `output_stats`, a boolean `use_pid_file`, an
/// integer rate (cut to 32 bits), a string `client`, an integer `port` or
/// `numwant` in range; an absent one keeps the value it had. When it stops,
/// the paths and rates keep the values they had.
pub proof fn lemma_read_table(c: ConfigView, es: Seq<TomlEntryView>)
    ensures
        read_table(c, es).1 <==> absent_or_bool(toml_get(es, "use_pid_file"@))
            && absent_or_int(toml_get(es, "min_upload_rate"@))
            && absent_or_int(toml_get(es, "max_upload_rate"@)),
        read_table(c, es).1 ==> {
            let r = read_table(c, es).0;
            &&& (match toml_get(es, "torrent_dir"@) {
                Some(TomlValueView::Str(d)) => r.torrent_dir == d,
                _ => r.torrent_dir == c.torrent_dir,
            })
            &&& (match toml_get(es, "output_stats"@) {
                Some(TomlValueView::Str(p)) => r.output_stats == Some(p),
                _ => r.output_stats == c.output_stats,
            })
            &&& (match toml_get(es, "use_pid_file"@) {
                Some(TomlValueView::Bool(b)) => r.use_pid_file == b,
                _ => r.use_pid_file == c.use_pid_file,
            })
            &&& (match toml_get(es, "min_upload_rate"@) {
                Some(TomlValueView::Int(v)) => r.min_upload_rate == v as u32,
                _ => r.min_upload_rate == c.min_upload_rate,
            })
            &&& (match toml_get(es, "max_upload_rate"@) {
                Some(TomlValueView::Int(v)) => r.max_upload_rate == v as u32,
                _ => r.max_upload_rate == c.max_upload_rate,
            })
        },
        !read_table(c, es).1 ==> {
            let r = read_table(c, es).0;
            &&& r.torrent_dir == c.torrent_dir
            &&& r.output_stats == c.output_stats
            &&& r.max_upload_rate == c.max_upload_rate
        },
        ({
            let r = read_table(c, es).0;
            &&& (match toml_get(es, "client"@) {
                Some(TomlValueView::Str(n)) => r.client == n,
                _ => r.client == c.client,
            })
            &&& (match toml_get(es, "port"@) {
                Some(TomlValueView::Int(p)) => if in_u16_range(p) { r.port == p } else { r.port == c.port },
                _ => r.port == c.port,
            })
            &&& (match toml_get(es, "numwant"@) {
                Some(TomlValueView::Int(n)) => if in_u16_range(n) { r.numwant == Some(n as u16) } else { r.numwant == c.numwant },
                _ => r.numwant == c.numwant,
            })
        }),
{
}

/// The upload rates in order: swapped when the minimum is above the maximum.
pub open spec fn ordered_speeds(c: ConfigView) -> ConfigView {
    if c.min_upload_rate <= c.max_upload_rate {
        c
    } else {
        ConfigView { min_upload_rate: c.max_upload_rate, max_upload_rate: c.min_upload_rate, ..c }
    }
}

/// The configuration read from the entries of a TOML table over `c`, with
/// the upload rates put in order, whether the reading went to the end or not.
pub open spec fn configured(c: ConfigView, es: Seq<TomlEntryView>) -> ConfigView {
    ordered_speeds(read_table(c, es).0)
}

/// The defaults, with the given port.
pub open spec fn default_view(port: u16) -> ConfigView {
    ConfigView {
        port,
        min_upload_rate: 8192,
        max_upload_rate: 2097152,
        use_pid_file: false,
        numwant: None,
        client: "Transmission_3_00"@,
        torrent_dir: "."@,
        output_stats: None,
    }
}

/// The configuration loaded from a TOML text, over the defaults with the
/// given port: the defaults when the text is not a TOML table.
pub open spec fn loaded_config(root: Option<Seq<TomlEntryView>>, port: u16) -> ConfigView {
    match root {
        Some(es) => configured(default_view(port), es),
        None => default_view(port),
    }
}

/// Something wrong in a configuration file, reported while reading it; the
/// reading goes on with the defaults for what is wrong, or stops where noted.
#[derive(Debug, Clone, Copy, PartialEq, Eq, Structural)]
pub enum ConfigIssue {
    /// The text is not TOML, or its root is not a table; nothing is read.
    NotATable,
    ClientNotString,
    /// `port` is an integer out of 1 to 65535.
    InvalidPort,
    PortNotInteger,
    /// `numwant` is an integer out of 1 to 65535.
    InvalidNumwant,
    NumwantNotInteger,
    /// `use_pid_file` is not a boolean; the reading stops.
    UsePidFileNotBool,
    /// `min_upload_rate` is not an integer; the reading stops.
    InvalidMinUploadRate,
    /// `max_upload_rate` is not an integer; the reading stops.
    InvalidMaxUploadRate,
    InvalidTorrentDir,
    InvalidOutputStats,
    /// The minimum upload rate read is above the maximum; they are swapped.
    SpeedsSwapped { min: u32, max: u32 },
}

/// The issue of a setting that must hold a string.
pub open spec fn string_issue(v: Option<TomlValueView>, issue: ConfigIssue) -> Seq<ConfigIssue> {
    match v {
        Some(TomlValueView::Str(_)) => Seq::empty(),
        Some(_) => seq![issue],
        None => Seq::empty(),
    }
}

/// The issue of a setting that must hold an integer from 1 to 65535.
pub open spec fn count_issue(v: Option<TomlValueView>, out_of_range: ConfigIssue, not_integer: ConfigIssue) -> Seq<ConfigIssue> {
    match v {
        Some(TomlValueView::Int(n)) => if in_u16_range(n) { Seq::empty() } else { seq![out_of_range] },
        Some(_) => seq![not_integer],
        None => Seq::empty(),
    }
}

/// The issues of `client`, `port` and `numwant`, in this order.
pub open spec fn first_issues(es: Seq<TomlEntryView>) -> Seq<ConfigIssue> {
    string_issue(toml_get(es, "client"@), ConfigIssue::ClientNotString)
        + count_issue(toml_get(es, "port"@), ConfigIssue::InvalidPort, ConfigIssue::PortNotInteger)
        + count_issue(toml_get(es, "numwant"@), ConfigIssue::InvalidNumwant, ConfigIssue::NumwantNotInteger)
}

/// The issues met while reading the entries, in the order of
/// [`read_table`], up to where the reading stops.
pub open spec fn reading_issues(es: Seq<TomlEntryView>) -> Seq<ConfigIssue> {
    first_issues(es) + later_issues(es)
}

/// The issues from `use_pid_file` on.
pub open spec fn later_issues(es: Seq<TomlEntryView>) -> Seq<ConfigIssue> {
    match toml_get(es, "use_pid_file"@) {
        Some(TomlValueView::Bool(_)) => rate_issues(es),
        Some(_) => seq![ConfigIssue::UsePidFileNotBool],
        None => rate_issues(es),
    }
}

pub open spec fn rate_issues(es: Seq<TomlEntryView>) -> Seq<ConfigIssue> {
    match toml_get(es, "min_upload_rate"@) {
        Some(TomlValueView::Int(_)) => max_rate_issues(es),
        Some(_) => seq![ConfigIssue::InvalidMinUploadRate],
        None => max_rate_issues(es),
    }
}

pub open spec fn max_rate_issues(es: Seq<TomlEntryView>) -> Seq<ConfigIssue> {
    match toml_get(es, "max_upload_rate"@) {
        Some(TomlValueView::Int(_)) => path_issues(es),
        Some(_) => seq![ConfigIssue::InvalidMaxUploadRate],
        None => path_issues(es),
    }
}

pub open spec fn path_issues(es: Seq<TomlEntryView>) -> Seq<ConfigIssue> {
    string_issue(toml_get(es, "torrent_dir"@), ConfigIssue::InvalidTorrentDir)
        + string_issue(toml_get(es, "output_stats"@), ConfigIssue::InvalidOutputStats)
}

/// The warning given when the upload rates of `c` are out of order.
pub open spec fn swap_issue(c: ConfigView) -> Seq<ConfigIssue> {
    if c.min_upload_rate <= c.max_upload_rate {
        Seq::empty()
    } else {
        seq![ConfigIssue::SpeedsSwapped { min: c.min_upload_rate, max: c.max_upload_rate }]
    }
}

/// Everything reported while reading the entries over `c`: the reading's
/// issues, then the swap of the rates if there is one.
pub open spec fn table_issues(c: ConfigView, es: Seq<TomlEntryView>) -> Seq<ConfigIssue> {
    reading_issues(es) + swap_issue(read_table(c, es).0)
}

/// Everything reported while loading a TOML text over the defaults with the
/// given port.
pub open spec fn loaded_issues(root: Option<Seq<TomlEntryView>>, port: u16) -> Seq<ConfigIssue> {
    match root {
        Some(es) => table_issues(default_view(port), es),
        None => seq![ConfigIssue::NotATable],
    }
}

impl Config {
    /// Swaps the upload rates when the minimum is above the maximum.
    pub fn order_speeds(&mut self)
        ensures
            final(self)@ == ordered_speeds(old(self)@),
    {
        if !self.speeds_ok() {
            let min = self.min_upload_rate;
            self.min_upload_rate = self.max_upload_rate;
            self.max_upload_rate = min;
        }
    }

    /// Swaps the upload rates when the minimum is above the maximum, and
    /// notes the swap.
    fn order_speeds_noting(&mut self, issues: &mut Vec<ConfigIssue>)
        ensures
            final(self)@ == ordered_speeds(old(self)@),
            final(issues)@ == old(issues)@ + swap_issue(old(self)@),
    {
        if !self.speeds_ok() {
            issues.push(ConfigIssue::SpeedsSwapped { min: self.min_upload_rate, max: self.max_upload_rate });
        } else {
            assert(issues@ =~= issues@ + swap_issue(self@));
        }
        self.order_speeds();
    }

    /// Reads `client`, `port` and `numwant`.
    fn read_first_settings(&mut self, entries: &Vec<TomlEntry>) -> (issues: Vec<ConfigIssue>)
        ensures
            final(self)@ == with_first_settings(old(self)@, entries_view(entries@)),
            issues@ == first_issues(entries_view(entries@)),
    {
        let ghost es = entries_view(entries@);
        let mut issues: Vec<ConfigIssue> = Vec::new();
        if let Some(i) = find_entry(entries, "client") {
            if let TomlValue::Str(s) = &entries[i].value {
                self.client = s.clone();
            } else {
                issues.push(ConfigIssue::ClientNotString);
            }
        }
        assert(issues@ =~= string_issue(toml_get(es, "client"@), ConfigIssue::ClientNotString));
        let ghost after_client = issues@;
        if let Some(i) = find_entry(entries, "port") {
            if let TomlValue::Int(p) = entries[i].value {
                if 1 <= p && p <= 65535 {
                    self.port = p as u16;
                } else {
                    issues.push(ConfigIssue::InvalidPort);
                }
            } else {
                issues.push(ConfigIssue::PortNotInteger);
            }
        }
        assert(issues@ =~= after_client + count_issue(toml_get(es, "port"@), ConfigIssue::InvalidPort, ConfigIssue::PortNotInteger));
        let ghost after_port = issues@;
        if let Some(i) = find_entry(entries, "numwant") {
            if let TomlValue::Int(n) = entries[i].value {
                if 1 <= n && n <= 65535 {
                    self.numwant = Some(n as u16);
                } else {
                    issues.push(ConfigIssue::InvalidNumwant);
                }
            } else {
                issues.push(ConfigIssue::NumwantNotInteger);
            }
        }
        assert(issues@ =~= after_port + count_issue(toml_get(es, "numwant"@), ConfigIssue::InvalidNumwant, ConfigIssue::NumwantNotInteger));
        issues
    }

    /// Reads `torrent_dir` and `output_stats`.
    fn read_path_settings(&mut self, entries: &Vec<TomlEntry>, issues: &mut Vec<ConfigIssue>)
        ensures
            final(self)@ == read_paths(old(self)@, entries_view(entries@)),
            final(issues)@ == old(issues)@ + path_issues(entries_view(entries@)),
    {
        let ghost es = entries_view(entries@);
        if let Some(i) = find_entry(entries, "torrent_dir") {
            if let TomlValue::Str(d) = &entries[i].value {
                self.torrent_dir = d.clone();
            } else {
                issues.push(ConfigIssue::InvalidTorrentDir);
            }
        }
        assert(issues@ =~= old(issues)@ + string_issue(toml_get(es, "torrent_dir"@), ConfigIssue::InvalidTorrentDir));
        let ghost after_dir = issues@;
        if let Some(i) = find_entry(entries, "output_stats") {
            if let TomlValue::Str(p) = &entries[i].value {
                self.output_stats = Some(p.clone());
            } else {
                issues.push(ConfigIssue::InvalidOutputStats);
            }
        }
        assert(issues@ =~= after_dir + string_issue(toml_get(es, "output_stats"@), ConfigIssue::InvalidOutputStats));
    }

    /// Reads `use_pid_file`, the upload rates and the paths, stopping at a
    /// value of the wrong type (see [`read_pid_file`], [`later_issues`]).
    fn read_later_settings(&mut self, entries: &Vec<TomlEntry>, issues: &mut Vec<ConfigIssue>)
        ensures
            final(self)@ == read_pid_file(old(self)@, entries_view(entries@)).0,
            final(issues)@ == old(issues)@ + later_issues(entries_view(entries@)),
    {
        let ghost es = entries_view(entries@);
        if let Some(i) = find_entry(entries, "use_pid_file") {
            match entries[i].value {
                TomlValue::Bool(b) => {
                    self.use_pid_file = b;
                },
                _ => {
                    issues.push(ConfigIssue::UsePidFileNotBool);
                    return;
                },
            }
        }
        if let Some(i) = find_entry(entries, "min_upload_rate") {
            match entries[i].value {
                TomlValue::Int(v) => {
                    self.min_upload_rate = v as u32;
                },
                _ => {
                    issues.push(ConfigIssue::InvalidMinUploadRate);
                    return;
                },
            }
        }
        if let Some(i) = find_entry(entries, "max_upload_rate") {
            match entries[i].value {
                TomlValue::Int(v) => {
                    self.max_upload_rate = v as u32;
                },
                _ => {
                    issues.push(ConfigIssue::InvalidMaxUploadRate);
                    return;
                },
            }
        }
        self.read_path_settings(entries, issues);
    }

    /// Reads the entries of a TOML table into the configuration (see
    /// [`configured`]) and returns what was wrong in them (see
    /// [`table_issues`]).
    pub fn apply_toml(&mut self, entries: &Vec<TomlEntry>) -> (issues: Vec<ConfigIssue>)
        ensures
            final(self)@ == configured(old(self)@, entries_view(entries@)),
            final(self).min_upload_rate <= final(self).max_upload_rate,
            issues@ == table_issues(old(self)@, entries_view(entries@)),
    {
        let mut issues = self.read_first_settings(entries);
        self.read_later_settings(entries, &mut issues);
        self.order_speeds_noting(&mut issues);
        assert(issues@ =~= table_issues(old(self)@, entries_view(entries@)));
        issues
    }

    /// Loads the configuration from the text of a TOML file, with what was
    /// wrong in it: the defaults, with what the file sets (see
    /// [`loaded_config`] and [`loaded_issues`]).
    pub fn load_toml(content: &str) -> (r: (Config, Vec<ConfigIssue>))
        ensures
            exists|port: u16| 49152 <= port < 65534
                && r.0@ == loaded_config(toml_root(content@), port)
                && r.1@ == loaded_issues(toml_root(content@), port),
            r.0.min_upload_rate <= r.0.max_upload_rate,
    {
        let mut config = Config::default();
        proof {
            reveal_strlit("Transmission_3_00");
            reveal_strlit(".");
        }
        let port = config.port;
        assert(config@ == default_view(port));
        let issues = match parse_toml(content) {
            Some(entries) => config.apply_toml(&entries),
            None => vec![ConfigIssue::NotATable],
        };
        assert(config@ == loaded_config(toml_root(content@), port));
        assert(issues@ == loaded_issues(toml_root(content@), port));
        (config, issues)
    }

    /// Loads the configuration from the text of a TOML file: the defaults,
    /// with what the file sets (see [`loaded_config`]).
    pub fn from_toml(content: &str) -> (r: Config)
        ensures
            exists|port: u16| 49152 <= port < 65534 && r@ == loaded_config(toml_root(content@), port),
            r.min_upload_rate <= r.max_upload_rate,
    {
        let (config, _issues) = Config::load_toml(content);
        config
    }
}

/// A loaded configuration has its minimum upload rate at most its maximum.
pub proof fn lemma_loaded_speeds_ordered(root: Option<Seq<TomlEntryView>>, port: u16)
    ensures
        loaded_config(root, port).min_upload_rate <= loaded_config(root, port).max_upload_rate,
{
}

/* ---------- the imitated client ---------- */

#[verifier::external_type_specification]
#[verifier::external_body]
pub struct ExClient(fake_torrent_client::Client);

#[verifier::external_type_specification]
#[verifier::external_body]
pub struct ExClientVersion(fake_torrent_client::clients::ClientVersion);

/// Whether `ClientVersion::from_str` knows a client name.
pub uninterp spec fn known_client(name: Seq<char>) -> bool;

/// The version that `ClientVersion::from_str` gives for a known client name.
pub uninterp spec fn version_named(name: Seq<char>) -> fake_torrent_client::clients::ClientVersion;

/// Calls `ClientVersion::from_str`. The contract names whether it succeeds
/// and the version it gives, both functions of the name alone.
#[verifier::external_body]
fn client_version(name: &str) -> (r: Option<fake_torrent_client::clients::ClientVersion>)
    ensures
        r is Some <==> known_client(name@),
        r matches Some(v) ==> v == version_named(name@),
{
    <fake_torrent_client::clients::ClientVersion as std::str::FromStr>::from_str(name).ok()
}

/// The parts of an imitated client that do not depend on chance: its name,
/// its query template and how often its key is renewed.
pub struct ClientParts {
    pub name: Seq<char>,
    pub query: Seq<char>,
    pub key_refresh_every: Option<u16>,
}

/// What a client holds of [`ClientParts`].
pub uninterp spec fn client_parts(client: fake_torrent_client::Client) -> ClientParts;

/// What `Client::build` sets for a version: the name, the query template, and
/// the key renewal interval, `None` for the versions that leave it as it was.
pub uninterp spec fn build_parts(version: fake_torrent_client::clients::ClientVersion) -> (Seq<char>, Seq<char>, Option<u16>);

/// The query template of a client before it is built.
pub open spec fn default_query() -> Seq<char> {
    "info_hash={infohash}&peer_id={peerid}&port={port}&uploaded={uploaded}&downloaded={downloaded}&left={left}&corrupt=0&key={key}&event={event}&numwant={numwant}&compact=1&no_peer_id=1"@
}

/// Calls `Client::default`: the contract states what its source sets, the
/// name `INVALID`, the default query template and no key renewal.
#[verifier::external_body]
fn default_client() -> (r: fake_torrent_client::Client)
    ensures
        client_parts(r) == (ClientParts { name: "INVALID"@, query: default_query(), key_refresh_every: None }),
{
    fake_torrent_client::Client::default()
}

/// Calls `Client::build`, which sets the client's name, query template and,
/// for some versions, key renewal interval (named by [`build_parts`]), and
/// draws its key and peer id at random; nothing is claimed of those.
#[verifier::external_body]
fn build_client(client: &mut fake_torrent_client::Client, version: fake_torrent_client::clients::ClientVersion)
    ensures
        client_parts(*final(client)).name == build_parts(version).0,
        client_parts(*final(client)).query == build_parts(version).1,
        client_parts(*final(client)).key_refresh_every == match build_parts(version).2 {
            Some(k) => Some(k),
            None => client_parts(*old(client)).key_refresh_every,
        },
{
    client.build(version)
}

/// Reads the client's `key_refresh_every`.
#[verifier::external_body]
fn key_refresh_every(client: &fake_torrent_client::Client) -> (r: Option<u16>)
    ensures
        r == client_parts(*client).key_refresh_every,
{
    client.key_refresh_every
}

/// Init the client from the configuration and returns the interval to
/// refresh client key if applicable: the configured client when the name is
/// known, the default one otherwise; the flag tells which.
pub fn init_client(config: &Config) -> (r: (fake_torrent_client::Client, Option<u16>, bool))
    ensures
        r.2 == known_client(config.client@),
        r.1 == client_parts(r.0).key_refresh_every,
        r.2 ==> {
            let p = build_parts(version_named(config.client@));
            &&& client_parts(r.0).name == p.0
            &&& client_parts(r.0).query == p.1
            &&& r.1 == p.2
        },
        !r.2 ==> client_parts(r.0) == (ClientParts { name: "INVALID"@, query: default_query(), key_refresh_every: None }),
{
    let mut client = default_client();
    let known = match client_version(config.client.as_str()) {
        Some(selected) => {
            build_client(&mut client, selected);
            true
        },
        None => false,
    };
    let refresh = key_refresh_every(&client);
    (client, refresh, known)
}

} // verus!
