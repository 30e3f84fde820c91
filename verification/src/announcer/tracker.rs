//! HTTP trackers: which tracker URLs are usable, the announce URL, and what a
//! tracker's answer changes in a torrent.
use vstd::prelude::*;

use crate::bencode::{
    decode_at, decode_error_debug, dict_lookup, BVal, BencodeDecoder, BencodeValue, Decoded,
};
use crate::config::Config;
use crate::strings::{
    ascii_bytes, ascii_key, bytes_debug, bytes_debug_text, ends_with, nat_text, push_char, push_str,
    replace_all, replace_text, text_contains_char, text_ends_with, text_eq, u64_text, lowercase,
    lower_text, starts_with, text_starts_with,
};
use crate::text::utf8_text;
use crate::torrent::{effective_interval_of, instant_now, seconds_since, Torrent};

verus! {

/// The optional announce event.
#[derive(Debug, Clone, Copy, PartialEq, Eq, Structural)]
pub enum Event {
    /// The first request to tracker must include this value.
    Started,
    /// Must be sent to tracker if the client is shutting down gracefully.
    Stopped,
}

/* ---------- tracker URLs ---------- */

/// The kind of host of a URL.
#[derive(Debug, Clone, Copy, PartialEq, Eq, Structural)]
pub enum HostKind {
    Domain,
    Ipv4,
    Ipv6,
}

/// The host of a URL: its kind and its text.
#[derive(Debug)]
pub struct UrlHost {
    pub kind: HostKind,
    pub text: String,
}

/// What the announcer reads of a parsed URL.
#[derive(Debug)]
pub struct UrlParts {
    pub scheme: String,
    pub host: Option<UrlHost>,
    /// The port, when the URL gives one other than its scheme's default.
    pub port: Option<u16>,
}

pub struct UrlHostView {
    pub kind: HostKind,
    pub text: Seq<char>,
}

pub struct UrlPartsView {
    pub scheme: Seq<char>,
    pub host: Option<UrlHostView>,
    pub port: Option<u16>,
}

impl View for UrlHost {
    type V = UrlHostView;

    open spec fn view(&self) -> UrlHostView {
        UrlHostView { kind: self.kind, text: self.text@ }
    }
}

impl View for UrlParts {
    type V = UrlPartsView;

    open spec fn view(&self) -> UrlPartsView {
        UrlPartsView {
            scheme: self.scheme@,
            host: match self.host {
                Some(h) => Some(h@),
                None => None,
            },
            port: self.port,
        }
    }
}

/// What `url::Url::parse` makes of a text: `None` when it rejects it.
pub uninterp spec fn url_parts(s: Seq<char>) -> Option<UrlPartsView>;

/// Calls `url::Url::parse` and reads the scheme, the host (its kind and
/// `host_str`) and the port. The contract names the result, a function of the
/// text alone, and claims nothing else of it.
#[verifier::external_body]
pub(crate) fn parse_url(s: &str) -> (r: Option<UrlParts>)
    ensures
        match r {
            Some(p) => url_parts(s@) == Some(p@),
            None => url_parts(s@) is None,
        },
{
    let u = url::Url::parse(s).ok()?;
    let kind = match u.host() {
        Some(url::Host::Domain(_)) => Some(HostKind::Domain),
        Some(url::Host::Ipv4(_)) => Some(HostKind::Ipv4),
        Some(url::Host::Ipv6(_)) => Some(HostKind::Ipv6),
        None => None,
    };
    let host = kind.map(|kind| UrlHost { kind, text: u.host_str().unwrap_or_default().to_string() });
    Some(UrlParts { scheme: u.scheme().to_string(), host, port: u.port() })
}

/// The last `.`-separated label of the domain is `local` (mDNS).
pub open spec fn local_domain(d: Seq<char>) -> bool {
    d == "local"@ || ends_with(d, ".local"@)
}

/// A tracker URL the announcer can use: HTTP, HTTPS, or UDP with an explicit
/// port, with a host that is an IP address or a domain outside `.local`.
pub open spec fn supported_url(p: Option<UrlPartsView>) -> bool {
    match p {
        None => false,
        Some(u) => match u.host {
            None => false,
            Some(h) => {
                &&& (u.scheme == "http"@ || u.scheme == "https"@ || u.scheme == "udp"@)
                &&& !(u.scheme == "udp"@ && u.port is None)
                &&& (h.kind == HostKind::Domain ==> !local_domain(h.text))
            },
        },
    }
}

/// Check if the tracker URL is supported.
/// Supports HTTP, HTTPS, and UDP schemes.
/// Rejects .local TLDs (mDNS).
pub fn is_supported_url(url_str: &str) -> (r: bool)
    ensures
        r == supported_url(url_parts(url_str@)),
{
    let parsed = match parse_url(url_str) {
        Some(u) => u,
        None => return false,
    };
    let host = match &parsed.host {
        Some(h) => h,
        None => return false,
    };
    let scheme = parsed.scheme.as_str();
    let is_udp = text_eq(scheme, "udp");
    if !text_eq(scheme, "http") && !text_eq(scheme, "https") && !is_udp {
        return false;
    }
    if is_udp && parsed.port.is_none() {
        return false;
    }
    match host.kind {
        HostKind::Domain => !(text_eq(host.text.as_str(), "local") || text_ends_with(host.text.as_str(), ".local")),
        _ => true,
    }
}

/// A tracker reached over UDP: once lowercased, its URL starts with `udp://`.
pub open spec fn udp_url(url: Seq<char>) -> bool {
    starts_with(lowercase(url), "udp://"@)
}

/// Whether the tracker URL is a UDP one (see [`udp_url`]).
pub fn is_udp_url(url: &str) -> (r: bool)
    ensures
        r == udp_url(url@),
{
    let lower = lower_text(url);
    text_starts_with(lower.as_str(), "udp://")
}

/* ---------- tracker responses ---------- */

/// Parsed fields from a tracker HTTP response (BEP 3).
#[derive(Debug, Default)]
pub struct TrackerHttpUpdate {
    pub failure_reason: Option<String>,
    pub warning_message: Option<String>,
    pub interval: Option<u64>,
    pub min_interval: Option<u64>,
    pub tracker_id: Option<String>,
    pub seeders: Option<u16>,
    pub leechers: Option<u16>,
}

pub open spec fn text_of(o: Option<String>) -> Option<Seq<char>> {
    match o {
        Some(s) => Some(s@),
        None => None,
    }
}

/// The text of the byte string under `key`, when it is valid UTF-8.
pub open spec fn utf8_field(es: Seq<(Seq<u8>, BVal)>, key: Seq<char>) -> Option<Seq<char>> {
    match dict_lookup(es, ascii_bytes(key)) {
        Some(BVal::Bytes(m)) => if vstd::utf8::valid_utf8(m) {
            Some(vstd::utf8::decode_utf8(m))
        } else {
            None
        },
        _ => None,
    }
}

/// The integer under `key`.
pub open spec fn int_field(es: Seq<(Seq<u8>, BVal)>, key: Seq<char>) -> Option<int> {
    match dict_lookup(es, ascii_bytes(key)) {
        Some(BVal::Int(n)) => Some(n),
        _ => None,
    }
}

pub open spec fn as_u64(o: Option<int>) -> Option<u64> {
    match o {
        Some(n) => Some(n as u64),
        None => None,
    }
}

pub open spec fn as_u16(o: Option<int>) -> Option<u16> {
    match o {
        Some(n) => Some(n as u16),
        None => None,
    }
}

/// The text of a failure reason: the bytes as UTF-8, or the byte list as `{:?}` writes it.
pub open spec fn failure_text(m: Seq<u8>) -> Seq<char> {
    if vstd::utf8::valid_utf8(m) {
        vstd::utf8::decode_utf8(m)
    } else {
        bytes_debug(m)
    }
}

/// `u` is what the response dictionary `es` says: only the failure reason when
/// there is one; otherwise the warning, intervals, tracker id and peer counts
/// that are present with the right kind (integers cast to the field's type).
pub open spec fn update_of(u: TrackerHttpUpdate, es: Seq<(Seq<u8>, BVal)>) -> bool {
    match dict_lookup(es, ascii_bytes("failure reason"@)) {
        Some(BVal::Bytes(m)) => {
            &&& text_of(u.failure_reason) == Some(failure_text(m))
            &&& u.warning_message is None
            &&& u.interval is None
            &&& u.min_interval is None
            &&& u.tracker_id is None
            &&& u.seeders is None
            &&& u.leechers is None
        },
        _ => {
            &&& u.failure_reason is None
            &&& text_of(u.warning_message) == utf8_field(es, "warning message"@)
            &&& u.interval == as_u64(int_field(es, "interval"@))
            &&& u.min_interval == as_u64(int_field(es, "min interval"@))
            &&& text_of(u.tracker_id) == utf8_field(es, "tracker_id"@)
            &&& u.seeders == as_u16(int_field(es, "complete"@))
            &&& u.leechers == as_u16(int_field(es, "incomplete"@))
        },
    }
}

/// What parsing a tracker response gives, from what decoding its bytes gives.
pub open spec fn http_response_matches(d: Decoded, r: Result<TrackerHttpUpdate, String>) -> bool {
    match d {
        Decoded::Value(BVal::Dict(es), _) => r matches Ok(u) && update_of(u, es),
        Decoded::Value(_, _) => r matches Err(m) && m@ == "response is not a dictionary"@,
        Decoded::Failure(e, _) => r matches Err(m) && m@ == decode_error_debug(e),
    }
}

fn text_value(v: Option<&BencodeValue>) -> (r: Option<String>)
    ensures
        text_of(r) == match v {
            Some(x) => match x.model() {
                BVal::Bytes(m) => if vstd::utf8::valid_utf8(m) { Some(vstd::utf8::decode_utf8(m)) } else { None::<Seq<char>> },
                _ => None::<Seq<char>>,
            },
            None => None::<Seq<char>>,
        },
{
    match v {
        Some(BencodeValue::ByteString(m)) => match utf8_text(m.as_slice()) {
            Ok(s) => Some(s),
            Err(_) => None,
        },
        _ => None,
    }
}

fn int_value(v: Option<&BencodeValue>) -> (r: Option<i64>)
    ensures
        match r {
            Some(n) => v matches Some(x) && x.model() == BVal::Int(n as int),
            None => !(v matches Some(x) && x.model() is Int),
        },
{
    match v {
        Some(BencodeValue::Integer(n)) => Some(*n),
        _ => None,
    }
}

/// Decode a bencoded tracker HTTP response into a `TrackerHttpUpdate`.
/// Returns `Err` when the bytes cannot be decoded or are not a dictionary.
pub fn parse_http_response(bytes: &[u8]) -> (r: Result<TrackerHttpUpdate, String>)
    ensures
        http_response_matches(decode_at(bytes@, 0), r),
{
    let mut decoder = BencodeDecoder::new(bytes);
    match decoder.decode() {
        Ok(BencodeValue::Dictionary(dict)) => {
            let ghost es = dict.model();
            proof {
                reveal_strlit("failure reason");
                reveal_strlit("warning message");
                reveal_strlit("interval");
                reveal_strlit("min interval");
                reveal_strlit("tracker_id");
                reveal_strlit("complete");
                reveal_strlit("incomplete");
            }
            let mut update = TrackerHttpUpdate {
                failure_reason: None,
                warning_message: None,
                interval: None,
                min_interval: None,
                tracker_id: None,
                seeders: None,
                leechers: None,
            };
            let failure_key = ascii_key("failure reason");
            match dict.get(failure_key.as_slice()) {
                Some(BencodeValue::ByteString(msg)) => {
                    let text = match utf8_text(msg.as_slice()) {
                        Ok(s) => s,
                        Err(_) => bytes_debug_text(msg.as_slice()),
                    };
                    update.failure_reason = Some(text);
                    return Ok(update);
                },
                _ => {},
            }
            let warning_key = ascii_key("warning message");
            update.warning_message = text_value(dict.get(warning_key.as_slice()));
            let interval_key = ascii_key("interval");
            if let Some(interval) = int_value(dict.get(interval_key.as_slice())) {
                update.interval = Some(interval as u64);
            }
            let min_interval_key = ascii_key("min interval");
            if let Some(mi) = int_value(dict.get(min_interval_key.as_slice())) {
                update.min_interval = Some(mi as u64);
            }
            let tracker_id_key = ascii_key("tracker_id");
            update.tracker_id = text_value(dict.get(tracker_id_key.as_slice()));
            let complete_key = ascii_key("complete");
            if let Some(value) = int_value(dict.get(complete_key.as_slice())) {
                update.seeders = Some(value as u16);
            }
            let incomplete_key = ascii_key("incomplete");
            if let Some(value) = int_value(dict.get(incomplete_key.as_slice())) {
                update.leechers = Some(value as u16);
            }
            Ok(update)
        },
        Ok(_) => Err(String::from_str("response is not a dictionary")),
        Err(e) => Err(e.debug_string()),
    }
}


/* ---------- the announce URL ---------- */

/// What the announce URL takes from the emulated client: its query template,
/// key and peer id.
#[derive(Debug, Clone)]
pub struct ClientProfile {
    /// The query, with `{infohash}`, `{key}`, `{uploaded}`, ... placeholders.
    pub query: String,
    pub key: u32,
    pub peer_id: String,
}

pub open spec fn event_text(event: Option<Event>) -> Seq<char> {
    match event {
        Some(Event::Started) => "started"@,
        Some(Event::Stopped) => "stopped"@,
        None => ""@,
    }
}

/// The port announced: the configured one, 55555 without configuration.
pub open spec fn announce_port(config: Option<&Config>) -> u16 {
    match config {
        Some(c) => c.port,
        None => 55555,
    }
}

/// The number of peers asked for: the configured one, 80 otherwise.
pub open spec fn announce_numwant(config: Option<&Config>) -> u16 {
    match config {
        Some(c) => match c.numwant {
            Some(n) => n,
            None => 80,
        },
        None => 80,
    }
}

/// The bytes reported as uploaded: nothing for a `started` event, otherwise
/// the upload speed times the seconds since the last announce (at most `u64::MAX`).
pub open spec fn reported_upload(speed: u32, event: Option<Event>, elapsed: u64) -> u64 {
    if event == Some(Event::Started) {
        0
    } else if speed * elapsed > u64::MAX {
        u64::MAX
    } else {
        (speed * elapsed) as u64
    }
}

/// The announce URL: `url`, then `?` (or `&` when `url` has a query already),
/// then the client's query with its placeholders replaced in turn.
pub open spec fn announce_url(
    url: Seq<char>,
    torrent: Torrent,
    event: Option<Event>,
    client: ClientProfile,
    config: Option<&Config>,
    elapsed: u64,
) -> Seq<char> {
    let base = url + seq![if url.contains('?') { '&' } else { '?' }] + client.query@;
    let r1 = replace_all(base, "{infohash}"@, torrent.info_hash_urlencoded@);
    let r2 = replace_all(r1, "{key}"@, nat_text(client.key as nat));
    let r3 = replace_all(r2, "{uploaded}"@, nat_text(reported_upload(torrent.next_upload_speed, event, elapsed) as nat));
    let r4 = replace_all(r3, "{downloaded}"@, "0"@);
    let r5 = replace_all(r4, "{peerid}"@, client.peer_id@);
    let r6 = replace_all(r5, "{port}"@, nat_text(announce_port(config) as nat));
    let r7 = replace_all(r6, "{numwant}"@, nat_text(announce_numwant(config) as nat));
    let r8 = replace_all(r7, "ipv6={ipv6}"@, ""@);
    let r9 = replace_all(r8, "{left}"@, "0"@);
    replace_all(r9, "{event}"@, event_text(event))
}

/// The bytes reported as uploaded `elapsed` seconds after the last announce
/// (see [`reported_upload`]).
pub fn upload_report(torrent: &Torrent, event: Option<Event>, elapsed: u64) -> (r: u64)
    ensures
        r == reported_upload(torrent.next_upload_speed, event, elapsed),
{
    if event == Some(Event::Started) {
        0
    } else {
        match (torrent.next_upload_speed as u64).checked_mul(elapsed) {
            Some(v) => v,
            None => u64::MAX,
        }
    }
}

/// Builds the announce URL for `elapsed` seconds since the last announce
/// (see [`announce_url`]).
pub fn build_url_after(
    url: &str,
    torrent: &Torrent,
    event: Option<Event>,
    client: &ClientProfile,
    config: Option<&Config>,
    elapsed: u64,
) -> (r: String)
    ensures
        r@ == announce_url(url@, *torrent, event, *client, config, elapsed),
{
    let uploaded: u64 = if event == Some(Event::Started) {
        0
    } else {
        match (torrent.next_upload_speed as u64).checked_mul(elapsed) {
            Some(v) => v,
            None => u64::MAX,
        }
    };
    assert(uploaded == reported_upload(torrent.next_upload_speed, event, elapsed));
    let (port, numwant): (u16, u16) = match config {
        Some(c) => (c.port, match c.numwant {
            Some(n) => n,
            None => 80,
        }),
        None => (55555, 80),
    };
    let mut result = String::new();
    push_str(&mut result, url);
    if text_contains_char(url, '?') {
        push_char(&mut result, '&');
    } else {
        push_char(&mut result, '?');
    }
    push_str(&mut result, client.query.as_str());
    assert(result@ == url@ + seq![if url@.contains('?') { '&' } else { '?' }] + client.query@);
    proof {
        reveal_strlit("{infohash}");
        reveal_strlit("{key}");
        reveal_strlit("{uploaded}");
        reveal_strlit("{downloaded}");
        reveal_strlit("{peerid}");
        reveal_strlit("{port}");
        reveal_strlit("{numwant}");
        reveal_strlit("ipv6={ipv6}");
        reveal_strlit("{left}");
        reveal_strlit("{event}");
    }
    let r1 = replace_text(result.as_str(), "{infohash}", torrent.info_hash_urlencoded.as_str());
    let key_text = u64_text(client.key as u64);
    let r2 = replace_text(r1.as_str(), "{key}", key_text.as_str());
    let uploaded_text = u64_text(uploaded);
    let r3 = replace_text(r2.as_str(), "{uploaded}", uploaded_text.as_str());
    let r4 = replace_text(r3.as_str(), "{downloaded}", "0");
    let r5 = replace_text(r4.as_str(), "{peerid}", client.peer_id.as_str());
    let port_text = u64_text(port as u64);
    let r6 = replace_text(r5.as_str(), "{port}", port_text.as_str());
    let numwant_text = u64_text(numwant as u64);
    let r7 = replace_text(r6.as_str(), "{numwant}", numwant_text.as_str());
    let r8 = replace_text(r7.as_str(), "ipv6={ipv6}", "");
    let r9 = replace_text(r8.as_str(), "{left}", "0");
    let event_str: &str = match event {
        Some(Event::Started) => "started",
        Some(Event::Stopped) => "stopped",
        None => "",
    };
    proof {
        reveal_strlit("started");
        reveal_strlit("stopped");
        reveal_strlit("");
        reveal_strlit("0");
        assert(port == announce_port(config));
        assert(numwant == announce_numwant(config));
        assert(event_str@ == event_text(event));
    }
    replace_text(r9.as_str(), "{event}", event_str)
}

/// Build the HTTP announce URL for a tracker of the torrent. It prepares the
/// announce query by replacing variables (port, numwant, ...) with the
/// computed values; the upload reported is measured on the clock since the
/// last announce, except for a `started` event (see [`build_url_after`]).
pub fn build_url(
    url: &str,
    torrent: &Torrent,
    event: Option<Event>,
    client: &ClientProfile,
    config: Option<&Config>,
) -> (r: String)
    ensures
        event == Some(Event::Started) ==> r@ == announce_url(url@, *torrent, event, *client, config, 0),
        exists|elapsed: u64| r@ == announce_url(url@, *torrent, event, *client, config, elapsed),
{
    let elapsed: u64 = if event == Some(Event::Started) {
        0
    } else {
        seconds_since(&torrent.last_announce)
    };
    build_url_after(url, torrent, event, client, config, elapsed)
}

/* ---------- applying a tracker's answer ---------- */

/// What an HTTP tracker's answer does to a torrent, after an announce that
/// reported `reported` uploaded bytes: a failure reason counts an error;
/// otherwise the upload reported is added to the total, the fields present
/// replace the torrent's, the announce time becomes `now` and the error count
/// goes back to 0. An unreadable answer changes nothing.
pub open spec fn after_http_answer(
    t: Torrent,
    parsed: Result<TrackerHttpUpdate, String>,
    reported: u64,
    now: std::time::Instant,
) -> Torrent {
    match parsed {
        Ok(u) => match u.failure_reason {
            Some(_) => Torrent { error_count: (t.error_count + 1) as u16, ..t },
            None => Torrent {
                uploaded: (t.uploaded + reported) as u64,
                interval: match u.interval { Some(i) => i, None => t.interval },
                min_interval: match u.min_interval { Some(m) => Some(m), None => t.min_interval },
                tracker_id: match u.tracker_id { Some(id) => Some(id), None => t.tracker_id },
                seeders: match u.seeders { Some(n) => n, None => t.seeders },
                leechers: match u.leechers { Some(n) => n, None => t.leechers },
                last_announce: now,
                error_count: 0,
                ..t
            },
        },
        Err(_) => t,
    }
}

/// What an answer read from the tracker does, whatever its warning message:
/// without a failure reason, the upload reported is added to the total, each
/// field the answer gives replaces the torrent's and the others stay, the
/// announce time becomes `now` and the error count goes back to 0; with a
/// failure reason, only the error count goes up by one; an unreadable answer
/// changes nothing. The torrent's identity (name, URLs, hash) never changes.
pub proof fn lemma_http_answer(
    t: Torrent,
    parsed: Result<TrackerHttpUpdate, String>,
    reported: u64,
    now: std::time::Instant,
)
    requires
        parsed matches Ok(u) && u.failure_reason is Some ==> t.error_count < u16::MAX,
        parsed matches Ok(u) && u.failure_reason is None ==> t.uploaded + reported <= u64::MAX,
    ensures
        ({
            let r = after_http_answer(t, parsed, reported, now);
            &&& r.name == t.name
            &&& r.urls == t.urls
            &&& r.info_hash_urlencoded == t.info_hash_urlencoded
            &&& r.length == t.length
            &&& match parsed {
                Ok(u) => if u.failure_reason is None {
                    &&& r.uploaded == t.uploaded + reported
                    &&& r.error_count == 0
                    &&& r.last_announce == now
                    &&& r.interval == (match u.interval { Some(i) => i, None => t.interval })
                    &&& r.min_interval == (match u.min_interval { Some(m) => Some(m), None => t.min_interval })
                    &&& r.seeders == (match u.seeders { Some(n) => n, None => t.seeders })
                    &&& r.leechers == (match u.leechers { Some(n) => n, None => t.leechers })
                    &&& r.tracker_id == (match u.tracker_id { Some(id) => Some(id), None => t.tracker_id })
                } else {
                    &&& r.error_count == t.error_count + 1
                    &&& r.uploaded == t.uploaded
                    &&& r.interval == t.interval
                    &&& r.min_interval == t.min_interval
                    &&& r.last_announce == t.last_announce
                },
                Err(_) => r == t,
            }
        }),
{
}

/// Applies a parsed tracker answer to the torrent, after an announce that
/// reported `reported` uploaded bytes (see [`after_http_answer`]), and returns
/// the time to wait before the next announce: the interval, or the minimum
/// interval when that is greater.
pub fn apply_http_update(
    torrent: &mut Torrent,
    parsed: Result<TrackerHttpUpdate, String>,
    reported: u64,
    now: std::time::Instant,
) -> (r: u64)
    requires
        parsed matches Ok(u) && u.failure_reason is Some ==> old(torrent).error_count < u16::MAX,
        parsed matches Ok(u) && u.failure_reason is None ==> old(torrent).uploaded + reported <= u64::MAX,
    ensures
        *final(torrent) == after_http_answer(*old(torrent), parsed, reported, now),
        r == effective_interval_of(final(torrent).interval, final(torrent).min_interval),
{
    match parsed {
        Ok(update) => {
            if update.failure_reason.is_some() {
                torrent.error_count = torrent.error_count + 1;
            } else {
                if let Some(interval) = update.interval {
                    torrent.interval = interval;
                }
                if let Some(mi) = update.min_interval {
                    torrent.min_interval = Some(mi);
                }
                if let Some(tracker_id) = update.tracker_id {
                    torrent.tracker_id = Some(tracker_id);
                }
                if let Some(seeders) = update.seeders {
                    torrent.seeders = seeders;
                }
                if let Some(leechers) = update.leechers {
                    torrent.leechers = leechers;
                }
                torrent.uploaded = torrent.uploaded + reported;
                torrent.last_announce = now;
                torrent.error_count = 0;
            }
        },
        Err(_) => {},
    }
    torrent.effective_interval()
}

} // verus!
