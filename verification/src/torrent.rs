//! Torrents: the metainfo read from a `.torrent` file and the state of seeding it.
use vstd::prelude::*;

use crate::announcer::tracker::{is_supported_url, supported_url, url_parts};
use crate::bencode::{
    compare_bytes, decode_at, Decoded, dictionary_entries, raw_entries_at, raw_model, BVal, BencodeDecoder,
    BencodeDecoderError, BencodeValue, DecodeError, KeyOrder, RawEntry, RawEntryView, RawWalk,
};
use crate::config::Config;
use crate::random::random_u32_in;
use crate::strings::{
    ascii_bytes, ascii_key, nat_text, push_char, push_str, push_u64, replace_all, replace_text, text_eq,
};
use crate::text::utf8_text;
use crate::utils::{get_sha1, percent_encoded, percent_encoding, sha1_digest};
use vstd::slice::slice_subrange;

verus! {

#[verifier::external_type_specification]
#[verifier::external_body]
pub struct ExInstant(std::time::Instant);

/// `Instant` is `Copy`: a clone is the same instant.
pub assume_specification[ <std::time::Instant as Clone>::clone ](i: &std::time::Instant) -> (r: std::time::Instant)
    ensures
        r == *i,
;


/// Why a metainfo file could not be read.
#[derive(Debug)]
pub enum TorrentError {
    /// The bytes are not bencode.
    Decode(BencodeDecoderError),
    /// A value that must be a dictionary is something else.
    NotADictionary,
    /// A field holds a value of the wrong kind.
    InvalidField(String),
    /// A required field is absent.
    MissingField(String),
}

#[derive(Debug, PartialEq, Eq, Clone)]
pub struct Peer {
    /// A string of length 20 which this peer uses as its id. This field will be `None` for compact peer info.
    pub id: Option<String>,
    /// peer's IP address either IPv6 (hexed) or IPv4 (dotted quad) or DNS name (string)
    pub ip: String,
    /// peer's port number
    pub port: i64,
}

/// The torrent information kept in memory while seeding: what the announcer
/// sends and what the statistics show.
#[derive(Debug, PartialEq, Eq, Clone)]
pub struct Torrent {
    pub name: String,
    /// The tracker URLs (the announce list).
    pub urls: Vec<String>,
    pub length: u64,
    pub private: bool,
    /// Total of fake uploaded data since the start of RatioUp
    pub uploaded: u64,
    /// Last announce to the tracker
    pub last_announce: std::time::Instant,
    pub info_hash: [u8; 20],
    /// URL encoded hash that is used to build the tracker query
    pub info_hash_urlencoded: String,
    /// Number of seeders
    pub seeders: u16,
    /// Number of leechers
    pub leechers: u16,
    /// The next upload speed that will be announced.
    pub next_upload_speed: u32,
    /// Current interval after the last announce
    pub interval: u64,
    pub error_count: u16,
    pub encoding: Option<String>,
    /// (optional) Minimum announce interval. If present clients must not reannounce more frequently than this.
    pub min_interval: Option<u64>,
    /// A string that the client should send back on its next announcements.
    pub tracker_id: Option<String>,
    /// The file the torrent was loaded from, when known.
    pub source_path: Option<String>,
}

/// Calls `Instant::elapsed`: the time since `instant`. The result depends on
/// the clock; the contract claims nothing of it.
#[verifier::external_body]
fn instant_elapsed(instant: &std::time::Instant) -> std::time::Duration {
    instant.elapsed()
}

/// Calls `Duration::as_secs`: the whole seconds of a duration. A duration
/// is opaque here, so the contract claims nothing of the result.
#[verifier::external_body]
pub(crate) fn duration_secs(d: &std::time::Duration) -> u64 {
    d.as_secs()
}

/// Calls `Duration::subsec_nanos`: the nanoseconds of a duration beyond its
/// whole seconds, which its documentation says are below one billion.
#[verifier::external_body]
pub(crate) fn duration_subsec_nanos(d: &std::time::Duration) -> (r: u32)
    ensures
        r < 1_000_000_000,
{
    d.subsec_nanos()
}

/// The whole seconds since `instant`, on the clock.
pub(crate) fn seconds_since(instant: &std::time::Instant) -> u64 {
    let elapsed = instant_elapsed(instant);
    duration_secs(&elapsed)
}

/// Calls `Instant::now`. The result depends on the clock.
#[verifier::external_body]
pub(crate) fn instant_now() -> std::time::Instant {
    std::time::Instant::now()
}

/// `interval`, or the minimum interval when the tracker gave a greater one.
pub open spec fn effective_interval_of(interval: u64, min_interval: Option<u64>) -> u64 {
    match min_interval {
        Some(m) => if m > interval { m } else { interval },
        None => interval,
    }
}

/// The wait between announces is never shorter than the tracker's interval
/// nor than its minimum interval, and is one of the two.
pub proof fn lemma_effective_interval(interval: u64, min_interval: Option<u64>)
    ensures
        effective_interval_of(interval, min_interval) >= interval,
        min_interval matches Some(m) ==> effective_interval_of(interval, min_interval) >= m,
        effective_interval_of(interval, min_interval) == interval
            || min_interval == Some(effective_interval_of(interval, min_interval)),
{
}

pub open spec fn bool_text(b: bool) -> Seq<char> {
    if b { "true"@ } else { "false"@ }
}

/// One URL of the JSON list: quoted, then `, ` or, after the last one, `]}` and a newline.
pub open spec fn json_url(urls: Seq<String>, i: int) -> Seq<char> {
    seq!['"'] + urls[i]@ + seq!['"'] + if i + 1 < urls.len() { ", "@ } else { "]}\n"@ }
}

/// The first `k` URLs of the JSON list.
pub open spec fn json_urls(urls: Seq<String>, k: int) -> Seq<char>
    decreases k,
{
    if k <= 0 {
        Seq::empty()
    } else {
        json_urls(urls, k - 1) + json_url(urls, k - 1)
    }
}

impl Torrent {
    /// The interval to wait between announces: the tracker's interval, or its
    /// minimum interval when that is greater.
    pub fn effective_interval(&self) -> (r: u64)
        ensures
            r == effective_interval_of(self.interval, self.min_interval),
    {
        match self.min_interval {
            Some(m) => if m > self.interval { m } else { self.interval },
            None => self.interval,
        }
    }

    /// Whether an announce is due `elapsed_secs` seconds after the last one:
    /// the interval has passed, and so has the minimum interval when the
    /// tracker gave one.
    pub fn is_due(&self, elapsed_secs: u64) -> (r: bool)
        ensures
            r == (elapsed_secs >= effective_interval_of(self.interval, self.min_interval)),
    {
        elapsed_secs >= self.effective_interval()
    }

    /// Tells if we can announce to tracker(s) depending on the last announce:
    /// whether the seconds since then reach the interval and the minimum
    /// interval (see [`Torrent::is_due`]).
    pub fn shound_announce(&self) -> (r: bool)
        ensures
            effective_interval_of(self.interval, self.min_interval) == 0 ==> r,
    {
        self.is_due(seconds_since(&self.last_announce))
    }

    /// Tells if we can upload (need leechers)
    pub fn can_upload(&self) -> (r: bool)
        ensures
            r == ((self.seeders > 0 && self.leechers > 0) || self.leechers > 1),
    {
        (self.seeders > 0 && self.leechers > 0) || self.leechers > 1
    }

    /// When uploading is possible and `0 < min_speed <= available_speed`,
    /// draws the next upload speed in `[min_speed, available_speed)` and
    /// returns it; otherwise returns 0 and changes nothing.
    pub fn uploaded(&mut self, min_speed: u32, available_speed: u32) -> (r: u32)
        requires
            !(old(self).can_upload_spec() && 0 < min_speed && min_speed == available_speed),
        ensures
            old(self).can_upload_spec() && 0 < min_speed <= available_speed ==> {
                &&& min_speed <= r < available_speed
                &&& *final(self) == Torrent { next_upload_speed: r, ..*old(self) }
            },
            !(old(self).can_upload_spec() && 0 < min_speed <= available_speed) ==> {
                &&& r == 0
                &&& *final(self) == *old(self)
            },
    {
        if self.can_upload() && (0 < min_speed && min_speed <= available_speed) {
            self.next_upload_speed = random_u32_in(min_speed, available_speed);
            self.next_upload_speed
        } else {
            0
        }
    }

    pub open spec fn can_upload_spec(self) -> bool {
        (self.seeders > 0 && self.leechers > 0) || self.leechers > 1
    }

    /// Draws the next upload speed from the configured range (see [`Torrent::uploaded`]).
    pub fn compute_speeds(&mut self, config: &Config)
        requires
            !(old(self).can_upload_spec() && 0 < config.min_upload_rate && config.min_upload_rate == config.max_upload_rate),
        ensures
            old(self).can_upload_spec() && 0 < config.min_upload_rate <= config.max_upload_rate ==> {
                &&& config.min_upload_rate <= final(self).next_upload_speed < config.max_upload_rate
                &&& *final(self) == Torrent { next_upload_speed: final(self).next_upload_speed, ..*old(self) }
            },
            !(old(self).can_upload_spec() && 0 < config.min_upload_rate <= config.max_upload_rate) ==> *final(self) == *old(self),
    {
        self.uploaded(config.min_upload_rate, config.max_upload_rate);
    }

    /// The torrent as one line of the statistics JSON.
    pub open spec fn json(self) -> Seq<char> {
        "\t{\"name\": \""@ + replace_all(self.name@, "\""@, "\\\""@) + "\", \"length\": "@ + nat_text(self.length as nat)
            + ", \"private\": "@ + bool_text(self.private) + ", \"uploaded\": "@ + nat_text(self.uploaded as nat)
            + ", \"seeders\": "@ + nat_text(self.seeders as nat) + ", \"leechers\": "@ + nat_text(self.leechers as nat)
            + ", \"next_upload_speed\": "@ + nat_text(self.next_upload_speed as nat) + ", \"urls\": ["@
            + json_urls(self.urls@, self.urls@.len() as int) + if self.urls@.len() == 0 { "]}\n"@ } else { Seq::empty() }
    }

    /// Writes the torrent as one line of the statistics JSON: name (with
    /// double quotes escaped), sizes, counts and the tracker URLs.
    pub fn to_json(&self) -> (r: String)
        ensures
            r@ == self.json(),
    {
        let mut result = String::new();
        push_str(&mut result, "\t{\"name\": \"");
        proof { reveal_strlit("\""); }
        let escaped = replace_text(self.name.as_str(), "\"", "\\\"");
        push_str(&mut result, escaped.as_str());
        push_str(&mut result, "\", \"length\": ");
        push_u64(&mut result, self.length);
        push_str(&mut result, ", \"private\": ");
        if self.private {
            push_str(&mut result, "true");
        } else {
            push_str(&mut result, "false");
        }
        push_str(&mut result, ", \"uploaded\": ");
        push_u64(&mut result, self.uploaded);
        push_str(&mut result, ", \"seeders\": ");
        push_u64(&mut result, self.seeders as u64);
        push_str(&mut result, ", \"leechers\": ");
        push_u64(&mut result, self.leechers as u64);
        push_str(&mut result, ", \"next_upload_speed\": ");
        push_u64(&mut result, self.next_upload_speed as u64);
        push_str(&mut result, ", \"urls\": [");
        let ghost head = result@;
        let count = self.urls.len();
        let mut index: usize = 0;
        while index < count
            invariant
                count == self.urls@.len(),
                index <= count,
                result@ == head + json_urls(self.urls@, index as int),
            decreases count - index,
        {
            let ghost before = result@;
            push_char(&mut result, '"');
            push_str(&mut result, self.urls[index].as_str());
            push_char(&mut result, '"');
            if index + 1 < count {
                push_str(&mut result, ", ");
            } else {
                push_str(&mut result, "]}\n");
            }
            assert(result@ =~= before + json_url(self.urls@, index as int));
            index = index + 1;
        }
        if count == 0 {
            push_str(&mut result, "]}\n");
        } else {
            assert(result@ =~= result@ + Seq::<char>::empty());
        }
        result
    }
}

/* ---------- reading a metainfo file ---------- */

/// Why a metainfo file could not be read, as plain values.
pub enum MetaError {
    Decode(DecodeError),
    NotADictionary,
    InvalidField(Seq<char>),
    MissingField(Seq<char>),
}

impl TorrentError {
    pub open spec fn model(self) -> MetaError {
        match self {
            TorrentError::Decode(e) => MetaError::Decode(e.model()),
            TorrentError::NotADictionary => MetaError::NotADictionary,
            TorrentError::InvalidField(f) => MetaError::InvalidField(f@),
            TorrentError::MissingField(f) => MetaError::MissingField(f@),
        }
    }
}

/// What the top-level entries of a metainfo file give: the announce URLs in
/// the order they are written (repeats kept), the encoding, and the span of
/// the `info` dictionary's bytes.
pub struct MetaAcc {
    pub urls: Seq<Seq<char>>,
    pub encoding: Option<Seq<char>>,
    pub info: Option<(int, int)>,
}

pub open spec fn strings_view(v: Seq<String>) -> Seq<Seq<char>> {
    v.map_values(|s: String| s@)
}

/// The text of a byte string that is valid UTF-8.
pub open spec fn utf8_string(v: BVal) -> Option<Seq<char>> {
    match v {
        BVal::Bytes(b) => if vstd::utf8::valid_utf8(b) {
            Some(vstd::utf8::decode_utf8(b))
        } else {
            None
        },
        _ => None,
    }
}

/// The texts of the items of a tier, when each is a UTF-8 byte string.
pub open spec fn tier_urls(items: Seq<BVal>) -> Option<Seq<Seq<char>>>
    decreases items.len(),
{
    if items.len() == 0 {
        Some(Seq::empty())
    } else {
        match (tier_urls(items.drop_last()), utf8_string(items.last())) {
            (Some(u), Some(t)) => Some(u.push(t)),
            _ => None,
        }
    }
}

/// The URLs of an announce list, tier after tier, when each tier is a list of
/// UTF-8 byte strings.
pub open spec fn tiers_urls(tiers: Seq<BVal>) -> Option<Seq<Seq<char>>>
    decreases tiers.len(),
{
    if tiers.len() == 0 {
        Some(Seq::empty())
    } else {
        match (tiers_urls(tiers.drop_last()), tiers.last()) {
            (Some(u), BVal::List(items)) => match tier_urls(items) {
                Some(t) => Some(u + t),
                None => None,
            },
            _ => None,
        }
    }
}

/// One top-level entry read into `acc`: `info` must be a dictionary (its span
/// is kept), `announce` and `encoding` UTF-8 strings, `announce-list` a list
/// of lists of them; any other key is ignored. An entry of the wrong kind
/// gives the name of its key.
pub open spec fn meta_step(acc: MetaAcc, e: RawEntryView) -> Result<MetaAcc, Seq<char>> {
    if e.key == ascii_bytes("info"@) {
        match e.value {
            BVal::Dict(_) => Ok(MetaAcc { info: Some((e.start, e.end)), ..acc }),
            _ => Err("info"@),
        }
    } else if e.key == ascii_bytes("announce"@) {
        match utf8_string(e.value) {
            Some(u) => Ok(MetaAcc { urls: acc.urls.push(u), ..acc }),
            None => Err("announce"@),
        }
    } else if e.key == ascii_bytes("announce-list"@) {
        match e.value {
            BVal::List(tiers) => match tiers_urls(tiers) {
                Some(us) => Ok(MetaAcc { urls: acc.urls + us, ..acc }),
                None => Err("announce-list"@),
            },
            _ => Err("announce-list"@),
        }
    } else if e.key == ascii_bytes("encoding"@) {
        match utf8_string(e.value) {
            Some(t) => Ok(MetaAcc { encoding: Some(t), ..acc }),
            None => Err("encoding"@),
        }
    } else {
        Ok(acc)
    }
}

/// The entries read in the order they are written; the first entry of the
/// wrong kind stops the reading.
pub open spec fn meta_fold(es: Seq<RawEntryView>) -> Result<MetaAcc, Seq<char>>
    decreases es.len(),
{
    if es.len() == 0 {
        Ok(MetaAcc { urls: Seq::empty(), encoding: None, info: None })
    } else {
        match meta_fold(es.drop_last()) {
            Ok(acc) => meta_step(acc, es.last()),
            Err(f) => Err(f),
        }
    }
}

/// What a metainfo file holds, or why it cannot be read: it must be a
/// well-formed bencoded dictionary, with entries of the right kinds and an
/// `info` dictionary.
pub open spec fn metainfo(data: Seq<u8>) -> Result<MetaAcc, MetaError> {
    if data.len() > 0 && data[0] == 100u8 {
        match raw_entries_at(data, 1, Seq::empty()) {
            RawWalk::Entries(es) => match meta_fold(es) {
                Ok(acc) => if acc.info is Some {
                    Ok(acc)
                } else {
                    Err(MetaError::MissingField("info"@))
                },
                Err(f) => Err(MetaError::InvalidField(f)),
            },
            RawWalk::Failure(e, _) => Err(MetaError::Decode(e)),
        }
    } else {
        match decode_at(data, 0) {
            Decoded::Value(_, _) => Err(MetaError::NotADictionary),
            Decoded::Failure(e, _) => Err(MetaError::Decode(e)),
        }
    }
}

/// The URLs of an `announce-list` value: those of its tiers when it is a
/// list of lists of UTF-8 strings, none otherwise.
pub open spec fn announce_list_urls(v: BVal) -> Seq<Seq<char>> {
    match v {
        BVal::List(tiers) => match tiers_urls(tiers) {
            Some(us) => us,
            None => Seq::empty(),
        },
        _ => Seq::empty(),
    }
}

/// One entry read after others keeps the URLs read before, in place.
proof fn lemma_meta_step_extends(acc: MetaAcc, e: RawEntryView)
    ensures
        meta_step(acc, e) matches Ok(next) ==> acc.urls.len() <= next.urls.len()
            && forall|k: int| 0 <= k < acc.urls.len() ==> #[trigger] next.urls[k] == acc.urls[k],
{
}

/// Every URL the entries announce is read: the text of each `announce`
/// entry and each URL of each `announce-list` entry.
pub proof fn lemma_meta_fold_reads_urls(es: Seq<RawEntryView>)
    ensures
        meta_fold(es) matches Ok(acc) ==> {
            &&& forall|i: int| #![trigger es[i]]
                0 <= i < es.len() && es[i].key == ascii_bytes("announce"@) && utf8_string(es[i].value) is Some
                    ==> acc.urls.contains(utf8_string(es[i].value)->0)
            &&& forall|i: int, j: int| #![trigger announce_list_urls(es[i].value)[j]]
                0 <= i < es.len() && es[i].key == ascii_bytes("announce-list"@)
                    && 0 <= j < announce_list_urls(es[i].value).len()
                    ==> acc.urls.contains(announce_list_urls(es[i].value)[j])
        },
    decreases es.len(),
{
    if es.len() > 0 {
        let init = es.drop_last();
        let e = es.last();
        lemma_meta_fold_reads_urls(init);
        if let Ok(acc0) = meta_fold(init) {
            lemma_meta_step_extends(acc0, e);
            if let Ok(acc) = meta_step(acc0, e) {
                reveal_strlit("info");
                reveal_strlit("announce");
                reveal_strlit("announce-list");
                assert(ascii_bytes("info"@).len() == 4);
                assert(ascii_bytes("announce"@).len() == 8);
                assert(ascii_bytes("announce-list"@).len() == 13);
                assert forall|x: Seq<char>| acc0.urls.contains(x) implies acc.urls.contains(x) by {
                    let w = choose|w: int| 0 <= w < acc0.urls.len() && acc0.urls[w] == x;
                    assert(acc.urls[w] == x);
                }
                assert forall|i: int| #![trigger es[i]]
                    0 <= i < es.len() && es[i].key == ascii_bytes("announce"@) && utf8_string(es[i].value) is Some
                    implies acc.urls.contains(utf8_string(es[i].value)->0) by {
                    if i < es.len() - 1 {
                        assert(init[i] == es[i]);
                    } else {
                        assert(es[i] == e);
                        let u = utf8_string(e.value)->0;
                        assert(acc.urls == acc0.urls.push(u));
                        assert(acc.urls[acc0.urls.len() as int] == u);
                    }
                }
                assert forall|i: int, j: int| #![trigger announce_list_urls(es[i].value)[j]]
                    0 <= i < es.len() && es[i].key == ascii_bytes("announce-list"@)
                        && 0 <= j < announce_list_urls(es[i].value).len()
                    implies acc.urls.contains(announce_list_urls(es[i].value)[j]) by {
                    if i < es.len() - 1 {
                        assert(init[i] == es[i]);
                        assert(announce_list_urls(init[i].value)[j] == announce_list_urls(es[i].value)[j]);
                    } else {
                        assert(es[i] == e);
                        let us = announce_list_urls(e.value);
                        assert(acc.urls == acc0.urls + us);
                        assert(acc.urls[acc0.urls.len() + j] == us[j]);
                    }
                }
            }
        }
    }
}

/// A metainfo file that is read gives the torrent every supported URL it
/// announces, in `announce` or in `announce-list` (see
/// [`Torrent::from_bencode`], whose URLs are `supported_unique` of those read).
pub proof fn lemma_metainfo_keeps_announced(data: Seq<u8>, es: Seq<RawEntryView>)
    requires
        data.len() > 0,
        data[0] == 100u8,
        raw_entries_at(data, 1, Seq::empty()) == RawWalk::Entries(es),
    ensures
        metainfo(data) matches Ok(acc) ==> {
            &&& forall|i: int| #![trigger es[i]]
                0 <= i < es.len() && es[i].key == ascii_bytes("announce"@)
                    && utf8_string(es[i].value) is Some && supported_url(url_parts(utf8_string(es[i].value)->0))
                    ==> supported_unique(acc.urls).contains(utf8_string(es[i].value)->0)
            &&& forall|i: int, j: int| #![trigger announce_list_urls(es[i].value)[j]]
                0 <= i < es.len() && es[i].key == ascii_bytes("announce-list"@)
                    && 0 <= j < announce_list_urls(es[i].value).len()
                    && supported_url(url_parts(announce_list_urls(es[i].value)[j]))
                    ==> supported_unique(acc.urls).contains(announce_list_urls(es[i].value)[j])
        },
{
    lemma_meta_fold_reads_urls(es);
    if let Ok(acc) = metainfo(data) {
        lemma_supported_unique(acc.urls);
    }
}

/// The URLs kept for announcing: the supported ones, each once, in the order
/// of their first appearance.
pub open spec fn supported_unique(urls: Seq<Seq<char>>) -> Seq<Seq<char>>
    decreases urls.len(),
{
    if urls.len() == 0 {
        Seq::empty()
    } else {
        let r = supported_unique(urls.drop_last());
        let u = urls.last();
        if supported_url(url_parts(u)) && !r.contains(u) {
            r.push(u)
        } else {
            r
        }
    }
}

proof fn lemma_tiers_none_prefix(tiers: Seq<BVal>, k: int)
    requires
        0 <= k <= tiers.len(),
        tiers_urls(tiers.take(k)) is None,
    ensures
        tiers_urls(tiers) is None,
    decreases tiers.len() - k,
{
    if k < tiers.len() {
        assert(tiers.take(k + 1).drop_last() =~= tiers.take(k));
        lemma_tiers_none_prefix(tiers, k + 1);
    } else {
        assert(tiers.take(k) =~= tiers);
    }
}

proof fn lemma_tier_none_prefix(items: Seq<BVal>, k: int)
    requires
        0 <= k <= items.len(),
        tier_urls(items.take(k)) is None,
    ensures
        tier_urls(items) is None,
    decreases items.len() - k,
{
    if k < items.len() {
        assert(items.take(k + 1).drop_last() =~= items.take(k));
        lemma_tier_none_prefix(items, k + 1);
    } else {
        assert(items.take(k) =~= items);
    }
}

proof fn lemma_meta_fold_err_prefix(es: Seq<RawEntryView>, k: int)
    requires
        0 <= k <= es.len(),
        meta_fold(es.take(k)) is Err,
    ensures
        meta_fold(es) == meta_fold(es.take(k)),
    decreases es.len() - k,
{
    if k < es.len() {
        assert(es.take(k + 1).drop_last() =~= es.take(k));
        lemma_meta_fold_err_prefix(es, k + 1);
    } else {
        assert(es.take(k) =~= es);
    }
}

/// The URLs kept for announcing are supported, come from the given ones,
/// and none comes twice.
pub proof fn lemma_supported_unique(urls: Seq<Seq<char>>)
    ensures
        forall|i: int| 0 <= i < supported_unique(urls).len() ==> supported_url(url_parts(#[trigger] supported_unique(urls)[i]))
            && urls.contains(supported_unique(urls)[i]),
        forall|i: int, j: int| 0 <= i < j < supported_unique(urls).len() ==> #[trigger] supported_unique(urls)[i] != #[trigger] supported_unique(urls)[j],
        forall|u: Seq<char>| urls.contains(u) && supported_url(url_parts(u)) ==> #[trigger] supported_unique(urls).contains(u),
    decreases urls.len(),
{
    if urls.len() > 0 {
        let init = urls.drop_last();
        lemma_supported_unique(init);
        let r = supported_unique(init);
        assert forall|i: int| 0 <= i < r.len() implies urls.contains(#[trigger] r[i]) by {
            let w = choose|w: int| 0 <= w < init.len() && init[w] == r[i];
            assert(urls[w] == r[i]);
        }
        assert(urls[urls.len() - 1] == urls.last());
        assert forall|u: Seq<char>| urls.contains(u) && supported_url(url_parts(u)) implies #[trigger] supported_unique(urls).contains(u) by {
            let w = choose|w: int| 0 <= w < urls.len() && urls[w] == u;
            if w < urls.len() - 1 {
                assert(init[w] == u);
                assert(init.contains(u));
                assert(supported_unique(init).contains(u));
                let q = choose|q: int| 0 <= q < r.len() && r[q] == u;
                if supported_url(url_parts(urls.last())) && !r.contains(urls.last()) {
                    assert(r.push(urls.last())[q] == u);
                }
            } else {
                if !r.contains(u) {
                    assert(r.push(u)[r.len() as int] == u);
                }
            }
        }
    }
}

/// The text of a byte string that is valid UTF-8.
fn value_text(v: &BencodeValue) -> (r: Option<String>)
    ensures
        match r {
            Some(t) => utf8_string(v.model()) == Some(t@),
            None => utf8_string(v.model()) is None,
        },
{
    match v {
        BencodeValue::ByteString(b) => match utf8_text(b.as_slice()) {
            Ok(t) => Some(t),
            Err(_) => None,
        },
        _ => None,
    }
}

/// Appends the URLs of an announce list; `false` when it is malformed.
fn push_tiers(tiers: &Vec<BencodeValue>, urls: &mut Vec<String>) -> (ok: bool)
    ensures
        match tiers_urls(crate::bencode::model_seq(tiers@)) {
            Some(us) => ok && strings_view(final(urls)@) == strings_view(old(urls)@) + us,
            None => !ok,
        },
{
    let ghost start = strings_view(urls@);
    let mut i: usize = 0;
    proof {
        crate::bencode::lemma_model_seq(tiers@);
        assert(crate::bencode::model_seq(tiers@).take(0) =~= Seq::<BVal>::empty());
        assert(strings_view(urls@) =~= start + Seq::<Seq<char>>::empty());
    }
    while i < tiers.len()
        invariant
            i <= tiers@.len(),
            crate::bencode::model_seq(tiers@).len() == tiers@.len(),
            forall|j: int| 0 <= j < tiers@.len() ==> crate::bencode::model_seq(tiers@)[j] == #[trigger] tiers@[j].model(),
            tiers_urls(crate::bencode::model_seq(tiers@).take(i as int)) matches Some(us) && strings_view(urls@) == start + us,
        decreases tiers@.len() - i,
    {
        let ghost ms = crate::bencode::model_seq(tiers@);
        let ghost before = strings_view(urls@);
        let ghost us0 = tiers_urls(ms.take(i as int))->0;
        assert(ms.take(i + 1).drop_last() =~= ms.take(i as int));
        assert(ms.take(i + 1).last() == tiers@[i as int].model());
        match &tiers[i] {
            BencodeValue::List(items) => {
                proof {
                    crate::bencode::lemma_model_seq(items@);
                }
                let mut k: usize = 0;
                let ghost mi = crate::bencode::model_seq(items@);
                assert(mi.take(0) =~= Seq::<BVal>::empty());
                assert(strings_view(urls@) =~= before + Seq::<Seq<char>>::empty());
                while k < items.len()
                    invariant
                        k <= items@.len(),
                        i < tiers@.len(),
                        ms == crate::bencode::model_seq(tiers@),
                        ms.len() == tiers@.len(),
                        ms.take(i + 1).last() == BVal::List(mi),
                        ms.take(i + 1).drop_last() == ms.take(i as int),
                        tiers_urls(ms.take(i as int)) == Some(us0),
                        before == start + us0,
                        mi == crate::bencode::model_seq(items@),
                        mi.len() == items@.len(),
                        forall|j: int| 0 <= j < items@.len() ==> mi[j] == #[trigger] items@[j].model(),
                        tier_urls(mi.take(k as int)) matches Some(t) && strings_view(urls@) == before + t,
                    decreases items@.len() - k,
                {
                    let ghost t0 = tier_urls(mi.take(k as int))->0;
                    assert(mi.take(k + 1).drop_last() =~= mi.take(k as int));
                    assert(mi.take(k + 1).last() == items@[k as int].model());
                    match value_text(&items[k]) {
                        Some(t) => {
                            let ghost b2 = urls@;
                            urls.push(t);
                            assert(strings_view(urls@) =~= strings_view(b2).push(t@));
                            assert(strings_view(urls@) =~= before + t0.push(t@));
                        },
                        None => {
                            proof {
                                lemma_tier_none_prefix(mi, k as int + 1);
                                lemma_tiers_none_prefix(ms, i as int + 1);
                            }
                            return false;
                        },
                    }
                    k = k + 1;
                }
                assert(mi.take(items@.len() as int) =~= mi);
                assert(strings_view(urls@) =~= start + (us0 + tier_urls(mi)->0));
            },
            _ => {
                proof {
                    lemma_tiers_none_prefix(ms, i as int + 1);
                }
                return false;
            },
        }
        i = i + 1;
    }
    assert(crate::bencode::model_seq(tiers@).take(tiers@.len() as int) =~= crate::bencode::model_seq(tiers@));
    true
}

/// Whether `v` holds a string with the characters of `s`.
fn contains_text(v: &Vec<String>, s: &str) -> (r: bool)
    ensures
        r == strings_view(v@).contains(s@),
{
    let mut i: usize = 0;
    while i < v.len()
        invariant
            i <= v@.len(),
            forall|j: int| 0 <= j < i ==> v@[j]@ != s@,
        decreases v@.len() - i,
    {
        if text_eq(v[i].as_str(), s) {
            assert(strings_view(v@)[i as int] == s@);
            return true;
        }
        i = i + 1;
    }
    proof {
        if strings_view(v@).contains(s@) {
            let j = choose|j: int| 0 <= j < strings_view(v@).len() && strings_view(v@)[j] == s@;
            assert(v@[j]@ == s@);
        }
    }
    false
}

impl Torrent {
    /// Reads a torrent from the bytes of its metainfo file (see [`metainfo`]):
    /// the supported announce URLs, each once; the encoding; the URL encoding
    /// of the SHA-1 of the `info` dictionary's bytes. The raw `info_hash` is
    /// left at 20 zero bytes, the name and length empty, the interval at
    /// `u32::MAX` seconds, the counters at 0.
    pub fn from_bencode(data: &[u8]) -> (r: Result<Torrent, TorrentError>)
        ensures
            match metainfo(data@) {
                Ok(acc) => r matches Ok(t) && {
                    let (start, end) = acc.info->0;
                    &&& strings_view(t.urls@) == supported_unique(acc.urls)
                    &&& (match t.encoding { Some(e) => acc.encoding == Some(e@), None => acc.encoding is None })
                    &&& t.info_hash_urlencoded@ == percent_encoded(sha1_digest(data@.subrange(start, end)))
                    &&& t.info_hash@ == Seq::new(20, |i: int| 0u8)
                    &&& t.name@ == Seq::<char>::empty()
                    &&& t.length == 0
                    &&& !t.private
                    &&& t.uploaded == 0
                    &&& t.seeders == 0
                    &&& t.leechers == 0
                    &&& t.next_upload_speed == 0
                    &&& t.interval == 4_294_967_295
                    &&& t.error_count == 0
                    &&& t.min_interval is None
                    &&& t.tracker_id is None
                    &&& t.source_path is None
                },
                Err(e) => r matches Err(x) && x.model() == e,
            },
    {
        if data.len() == 0 || data[0] != 100u8 {
            let mut decoder = BencodeDecoder::new(data);
            return match decoder.decode() {
                Ok(_) => Err(TorrentError::NotADictionary),
                Err(e) => Err(TorrentError::Decode(e)),
            };
        }
        proof {
            crate::bencode::lemma_raw_entries_agree(data@, 1, Seq::empty(), Seq::empty());
        }
        let entries = match dictionary_entries(data) {
            Ok(es) => es,
            Err(e) => {
                return Err(TorrentError::Decode(e));
            },
        };
        proof {
            reveal_strlit("info");
            reveal_strlit("announce");
            reveal_strlit("announce-list");
            reveal_strlit("encoding");
        }
        let info_key = ascii_key("info");
        let announce_key = ascii_key("announce");
        let list_key = ascii_key("announce-list");
        let encoding_key = ascii_key("encoding");
        let ghost es = raw_model(entries@);
        let mut urls: Vec<String> = Vec::new();
        let mut encoding: Option<String> = None;
        let mut info: Option<(usize, usize)> = None;
        let mut i: usize = 0;
        assert(es.take(0) =~= Seq::<RawEntryView>::empty());
        assert(strings_view(urls@) =~= Seq::<Seq<char>>::empty());
        assert(raw_entries_at(data@, 1, Seq::empty()) == RawWalk::Entries(es));
        while i < entries.len()
            invariant
                i <= entries@.len(),
                es == raw_model(entries@),
                data@.len() > 0 && data@[0] == 100u8,
                raw_entries_at(data@, 1, Seq::empty()) == RawWalk::Entries(es),
                info_key@ == ascii_bytes("info"@),
                announce_key@ == ascii_bytes("announce"@),
                list_key@ == ascii_bytes("announce-list"@),
                encoding_key@ == ascii_bytes("encoding"@),
                forall|j: int| 0 <= j < entries@.len() ==> #[trigger] entries@[j].start < entries@[j].end <= data@.len(),
                meta_fold(es.take(i as int)) matches Ok(acc) && {
                    &&& acc.urls == strings_view(urls@)
                    &&& (match encoding { Some(e) => acc.encoding == Some(e@), None => acc.encoding is None })
                    &&& (match info { Some((a, b)) => acc.info == Some((a as int, b as int)) && a < b <= data@.len(), None => acc.info is None })
                },
            decreases entries@.len() - i,
        {
            assert(es.take(i + 1).drop_last() =~= es.take(i as int));
            assert(es.take(i + 1).last() == entries@[i as int].model());
            let entry = &entries[i];
            let key = entry.key.as_slice();
            if compare_bytes(key, info_key.as_slice()) == KeyOrder::Equal {
                match &entry.value {
                    BencodeValue::Dictionary(_) => {
                        info = Some((entry.start, entry.end));
                    },
                    _ => {
                        proof {
                                            lemma_meta_fold_err_prefix(es, i as int + 1);
                        }
                        return Err(TorrentError::InvalidField(String::from_str("info")));
                    },
                }
            } else if compare_bytes(key, announce_key.as_slice()) == KeyOrder::Equal {
                match value_text(&entry.value) {
                    Some(u) => {
                        let ghost b = urls@;
                        urls.push(u);
                        assert(strings_view(urls@) =~= strings_view(b).push(u@));
                    },
                    None => {
                        proof {
                            lemma_meta_fold_err_prefix(es, i as int + 1);
                        }
                        return Err(TorrentError::InvalidField(String::from_str("announce")));
                    },
                }
            } else if compare_bytes(key, list_key.as_slice()) == KeyOrder::Equal {
                match &entry.value {
                    BencodeValue::List(tiers) => {
                        if !push_tiers(tiers, &mut urls) {
                            proof {
                            lemma_meta_fold_err_prefix(es, i as int + 1);
                        }
                        return Err(TorrentError::InvalidField(String::from_str("announce-list")));
                        }
                    },
                    _ => {
                        proof {
                            lemma_meta_fold_err_prefix(es, i as int + 1);
                        }
                        return Err(TorrentError::InvalidField(String::from_str("announce-list")));
                    },
                }
            } else if compare_bytes(key, encoding_key.as_slice()) == KeyOrder::Equal {
                match value_text(&entry.value) {
                    Some(t) => {
                        encoding = Some(t);
                    },
                    None => {
                        proof {
                            lemma_meta_fold_err_prefix(es, i as int + 1);
                        }
                        return Err(TorrentError::InvalidField(String::from_str("encoding")));
                    },
                }
            }
            i = i + 1;
        }
        assert(es.take(entries@.len() as int) =~= es);
        let (start, end) = match info {
            Some(span) => span,
            None => {
                return Err(TorrentError::MissingField(String::from_str("info")));
            },
        };
        let hash = get_sha1(slice_subrange(data, start, end));
        let info_hash_urlencoded = percent_encoding(&hash);
        let mut kept: Vec<String> = Vec::new();
        let mut k: usize = 0;
        let ghost all = strings_view(urls@);
        assert(all.take(0) =~= Seq::<Seq<char>>::empty());
        assert(strings_view(kept@) =~= Seq::<Seq<char>>::empty());
        while k < urls.len()
            invariant
                k <= urls@.len(),
                all == strings_view(urls@),
                strings_view(kept@) == supported_unique(all.take(k as int)),
            decreases urls@.len() - k,
        {
            assert(all.take(k + 1).drop_last() =~= all.take(k as int));
            let u = urls[k].as_str();
            if is_supported_url(u) && !contains_text(&kept, u) {
                let ghost b = kept@;
                kept.push(urls[k].clone());
                assert(strings_view(kept@) =~= strings_view(b).push(u@));
            }
            k = k + 1;
        }
        assert(all.take(urls@.len() as int) =~= all);
        let t = Torrent {
            name: String::new(),
            urls: kept,
            length: 0,
            private: false,
            uploaded: 0,
            last_announce: instant_now(),
            info_hash: [0u8; 20],
            info_hash_urlencoded,
            seeders: 0,
            leechers: 0,
            next_upload_speed: 0,
            interval: 4_294_967_295,
            error_count: 0,
            encoding,
            min_interval: None,
            tracker_id: None,
            source_path: None,
        };
        Ok(t)
    }
}

/* ---------- the info dictionary ---------- */

/// A file of a torrent.
#[derive(Debug, Default, PartialEq, Eq)]
pub struct File {
    pub length: u64,
    pub md5sum: Option<String>,
    pub path: String,
}

/// The info dictionary of a torrent.
#[derive(Debug, Default, PartialEq, Eq)]
pub struct Info {
    pub name: String,
    pub files: Vec<File>,
    pub piece_length: u32,
    pub pieces: Vec<[u8; 20]>,
    pub private: bool,
}

pub struct FileView {
    pub length: u64,
    pub md5sum: Option<Seq<char>>,
    pub path: Seq<char>,
}

pub struct InfoView {
    pub name: Seq<char>,
    pub files: Seq<FileView>,
    pub piece_length: u32,
    pub pieces: Seq<Seq<u8>>,
    pub private: bool,
}

pub open spec fn opt_text(o: Option<String>) -> Option<Seq<char>> {
    match o {
        Some(s) => Some(s@),
        None => None,
    }
}

impl View for File {
    type V = FileView;

    open spec fn view(&self) -> FileView {
        FileView { length: self.length, md5sum: opt_text(self.md5sum), path: self.path@ }
    }
}

pub open spec fn files_view(fs: Seq<File>) -> Seq<FileView> {
    fs.map_values(|f: File| f@)
}

impl View for Info {
    type V = InfoView;

    open spec fn view(&self) -> InfoView {
        InfoView {
            name: self.name@,
            files: files_view(self.files@),
            piece_length: self.piece_length,
            pieces: self.pieces@.map_values(|p: [u8; 20]| p@),
            private: self.private,
        }
    }
}

/// A bencoded integer that fits in `u64`.
pub open spec fn u64_value(v: BVal) -> Option<u64> {
    match v {
        BVal::Int(n) => if 0 <= n <= u64::MAX {
            Some(n as u64)
        } else {
            None
        },
        _ => None,
    }
}

/// What the entries of a file dictionary give so far.
pub struct FileAcc {
    pub length: Option<u64>,
    pub md5sum: Option<Seq<char>>,
}

/// One entry of a file dictionary: `length` must be an unsigned integer and
/// `md5sum` a UTF-8 string; other keys are ignored.
pub open spec fn file_step(acc: FileAcc, e: (Seq<u8>, BVal)) -> Result<FileAcc, Seq<char>> {
    if e.0 == ascii_bytes("length"@) {
        match u64_value(e.1) {
            Some(n) => Ok(FileAcc { length: Some(n), ..acc }),
            None => Err("length"@),
        }
    } else if e.0 == ascii_bytes("md5sum"@) {
        match utf8_string(e.1) {
            Some(m) => Ok(FileAcc { md5sum: Some(m), ..acc }),
            None => Err("md5sum"@),
        }
    } else {
        Ok(acc)
    }
}

pub open spec fn file_fold(es: Seq<(Seq<u8>, BVal)>) -> Result<FileAcc, Seq<char>>
    decreases es.len(),
{
    if es.len() == 0 {
        Ok(FileAcc { length: None, md5sum: None })
    } else {
        match file_fold(es.drop_last()) {
            Ok(acc) => file_step(acc, es.last()),
            Err(f) => Err(f),
        }
    }
}

/// A file of a multi-file torrent: a dictionary with a length; its path is
/// left empty.
pub open spec fn file_of(v: BVal) -> Result<FileView, MetaError> {
    match v {
        BVal::Dict(es) => match file_fold(es) {
            Ok(acc) => match acc.length {
                Some(l) => Ok(FileView { length: l, md5sum: acc.md5sum, path: Seq::empty() }),
                None => Err(MetaError::MissingField("length"@)),
            },
            Err(f) => Err(MetaError::InvalidField(f)),
        },
        _ => Err(MetaError::NotADictionary),
    }
}

/// The files of a list, read in order; the first bad one stops the reading.
pub open spec fn files_of(items: Seq<BVal>) -> Result<Seq<FileView>, MetaError>
    decreases items.len(),
{
    if items.len() == 0 {
        Ok(Seq::empty())
    } else {
        match files_of(items.drop_last()) {
            Ok(fs) => match file_of(items.last()) {
                Ok(f) => Ok(fs.push(f)),
                Err(e) => Err(e),
            },
            Err(e) => Err(e),
        }
    }
}

/// What the entries of an info dictionary give so far.
pub struct InfoAcc {
    pub name: Option<Seq<char>>,
    pub files: Option<Seq<FileView>>,
    pub length: Option<u64>,
    pub md5sum: Option<Seq<char>>,
    pub private: bool,
    pub piece_length: Option<u32>,
    pub pieces: Option<Seq<u8>>,
}

/// One entry of an info dictionary, each field with the kind it must have;
/// `private` is set by an integer of 0 to 255 that is 1; other keys are ignored.
pub open spec fn info_step(acc: InfoAcc, e: (Seq<u8>, BVal)) -> Result<InfoAcc, MetaError> {
    if e.0 == ascii_bytes("piece length"@) {
        match e.1 {
            BVal::Int(n) => if 0 <= n <= u32::MAX {
                Ok(InfoAcc { piece_length: Some(n as u32), ..acc })
            } else {
                Err(MetaError::InvalidField("piece length"@))
            },
            _ => Err(MetaError::InvalidField("piece length"@)),
        }
    } else if e.0 == ascii_bytes("pieces"@) {
        match e.1 {
            BVal::Bytes(b) => Ok(InfoAcc { pieces: Some(b), ..acc }),
            _ => Err(MetaError::InvalidField("pieces"@)),
        }
    } else if e.0 == ascii_bytes("name"@) {
        match utf8_string(e.1) {
            Some(n) => Ok(InfoAcc { name: Some(n), ..acc }),
            None => Err(MetaError::InvalidField("name"@)),
        }
    } else if e.0 == ascii_bytes("files"@) {
        match e.1 {
            BVal::List(items) => match files_of(items) {
                Ok(fs) => Ok(InfoAcc { files: Some(fs), ..acc }),
                Err(err) => Err(err),
            },
            _ => Err(MetaError::InvalidField("files"@)),
        }
    } else if e.0 == ascii_bytes("length"@) {
        match u64_value(e.1) {
            Some(l) => Ok(InfoAcc { length: Some(l), ..acc }),
            None => Err(MetaError::InvalidField("length"@)),
        }
    } else if e.0 == ascii_bytes("md5sum"@) {
        match utf8_string(e.1) {
            Some(m) => Ok(InfoAcc { md5sum: Some(m), ..acc }),
            None => Err(MetaError::InvalidField("md5sum"@)),
        }
    } else if e.0 == ascii_bytes("private"@) {
        match e.1 {
            BVal::Int(n) => if 0 <= n <= 255 {
                Ok(InfoAcc { private: n == 1, ..acc })
            } else {
                Err(MetaError::InvalidField("private"@))
            },
            _ => Err(MetaError::InvalidField("private"@)),
        }
    } else {
        Ok(acc)
    }
}

pub open spec fn info_fold(es: Seq<(Seq<u8>, BVal)>) -> Result<InfoAcc, MetaError>
    decreases es.len(),
{
    if es.len() == 0 {
        Ok(InfoAcc { name: None, files: None, length: None, md5sum: None, private: false, piece_length: None, pieces: None })
    } else {
        match info_fold(es.drop_last()) {
            Ok(acc) => info_step(acc, es.last()),
            Err(e) => Err(e),
        }
    }
}

/// The pieces: 20-byte hashes, one after the other.
pub open spec fn chunks20(b: Seq<u8>) -> Seq<Seq<u8>> {
    Seq::new(b.len() / 20, |j: int| b.subrange(20 * j, 20 * j + 20))
}

/// The info dictionary: piece length and pieces are required, the pieces
/// come in whole 20-byte hashes, the name is required; without a file list
/// the torrent has one file, named after the torrent, whose length is required.
pub open spec fn info_of(v: BVal) -> Result<InfoView, MetaError> {
    match v {
        BVal::Dict(es) => match info_fold(es) {
            Err(e) => Err(e),
            Ok(acc) => if acc.piece_length is None || acc.pieces is None {
                Err(MetaError::MissingField("piece length or pieces"@))
            } else if acc.pieces->0.len() % 20 != 0 {
                Err(MetaError::MissingField("Invalid length for pieces"@))
            } else {
                match acc.name {
                    None => Err(MetaError::MissingField("name"@)),
                    Some(n) => {
                        let base = InfoView {
                            name: n,
                            files: Seq::empty(),
                            piece_length: acc.piece_length->0,
                            pieces: chunks20(acc.pieces->0),
                            private: acc.private,
                        };
                        match acc.files {
                            Some(fs) => Ok(InfoView { files: fs, ..base }),
                            None => match acc.length {
                                Some(l) => Ok(InfoView { files: seq![FileView { length: l, md5sum: acc.md5sum, path: n }], ..base }),
                                None => Err(MetaError::MissingField("length"@)),
                            },
                        }
                    },
                }
            },
        },
        _ => Err(MetaError::NotADictionary),
    }
}

proof fn lemma_file_fold_err_prefix(es: Seq<(Seq<u8>, BVal)>, k: int)
    requires
        0 <= k <= es.len(),
        file_fold(es.take(k)) is Err,
    ensures
        file_fold(es) == file_fold(es.take(k)),
    decreases es.len() - k,
{
    if k < es.len() {
        assert(es.take(k + 1).drop_last() =~= es.take(k));
        lemma_file_fold_err_prefix(es, k + 1);
    } else {
        assert(es.take(k) =~= es);
    }
}

proof fn lemma_files_err_prefix(items: Seq<BVal>, k: int)
    requires
        0 <= k <= items.len(),
        files_of(items.take(k)) is Err,
    ensures
        files_of(items) == files_of(items.take(k)),
    decreases items.len() - k,
{
    if k < items.len() {
        assert(items.take(k + 1).drop_last() =~= items.take(k));
        lemma_files_err_prefix(items, k + 1);
    } else {
        assert(items.take(k) =~= items);
    }
}

proof fn lemma_info_fold_err_prefix(es: Seq<(Seq<u8>, BVal)>, k: int)
    requires
        0 <= k <= es.len(),
        info_fold(es.take(k)) is Err,
    ensures
        info_fold(es) == info_fold(es.take(k)),
    decreases es.len() - k,
{
    if k < es.len() {
        assert(es.take(k + 1).drop_last() =~= es.take(k));
        lemma_info_fold_err_prefix(es, k + 1);
    } else {
        assert(es.take(k) =~= es);
    }
}

/// Whether the key `k` holds the ASCII text `name`.
fn key_is(k: &Vec<u8>, name: &str) -> (r: bool)
    requires
        forall|i: int| 0 <= i < name@.len() ==> (#[trigger] name@[i] as u32) < 128,
    ensures
        r == (k@ == ascii_bytes(name@)),
{
    let n = ascii_key(name);
    compare_bytes(k.as_slice(), n.as_slice()) == KeyOrder::Equal
}

impl File {
    /// Reads a file of a multi-file torrent from its dictionary (see [`file_of`]).
    pub fn from_bencode(v: &BencodeValue) -> (r: Result<File, TorrentError>)
        ensures
            match file_of(v.model()) {
                Ok(f) => r matches Ok(x) && x@ == f,
                Err(e) => r matches Err(x) && x.model() == e,
            },
    {
        let d = match v {
            BencodeValue::Dictionary(d) => d,
            _ => {
                return Err(TorrentError::NotADictionary);
            },
        };
        proof {
            reveal_strlit("length");
            reveal_strlit("md5sum");
            crate::bencode::lemma_model_entries(d.entries@);
            crate::bencode::lemma_dict_model(*d);
        }
        let ghost es = d.model();
        let mut length: Option<u64> = None;
        let mut md5sum: Option<String> = None;
        let mut i: usize = 0;
        assert(es.take(0) =~= Seq::<(Seq<u8>, BVal)>::empty());
        while i < d.entries.len()
            invariant
                i <= d.entries@.len(),
                es == d.model(),
                v.model() == BVal::Dict(es),
                es.len() == d.entries@.len(),
                forall|j: int| 0 <= j < d.entries@.len() ==> #[trigger] es[j] == (d.entries@[j].0@, d.entries@[j].1.model()),
                file_fold(es.take(i as int)) == Ok::<FileAcc, Seq<char>>(FileAcc { length, md5sum: opt_text(md5sum) }),
            decreases d.entries@.len() - i,
        {
            assert(es.take(i + 1).drop_last() =~= es.take(i as int));
            assert(es.take(i + 1).last() == es[i as int]);
            proof {
                reveal_strlit("length");
                reveal_strlit("md5sum");
            }
            let entry = &d.entries[i];
            if key_is(&entry.0, "length") {
                match &entry.1 {
                    BencodeValue::Integer(n) => {
                        if *n >= 0 {
                            length = Some(*n as u64);
                        } else {
                            proof {
                                lemma_file_fold_err_prefix(es, i + 1);
                            }
                            return Err(TorrentError::InvalidField(String::from_str("length")));
                        }
                    },
                    _ => {
                        proof {
                            lemma_file_fold_err_prefix(es, i + 1);
                        }
                        return Err(TorrentError::InvalidField(String::from_str("length")));
                    },
                }
            } else if key_is(&entry.0, "md5sum") {
                match value_text(&entry.1) {
                    Some(m) => {
                        md5sum = Some(m);
                    },
                    None => {
                        proof {
                            lemma_file_fold_err_prefix(es, i + 1);
                        }
                        return Err(TorrentError::InvalidField(String::from_str("md5sum")));
                    },
                }
            }
            i = i + 1;
        }
        assert(es.take(d.entries@.len() as int) =~= es);
        match length {
            Some(l) => Ok(File { length: l, md5sum, path: String::new() }),
            None => Err(TorrentError::MissingField(String::from_str("length"))),
        }
    }
}

/// Copies `raw[start..start + 20]` into an array.
fn chunk_at(raw: &Vec<u8>, start: usize) -> (r: [u8; 20])
    requires
        start + 20 <= raw@.len(),
    ensures
        r@ == raw@.subrange(start as int, start + 20),
{
    let mut arr: [u8; 20] = [0u8; 20];
    let mut i: usize = 0;
    let n: usize = raw.len();
    while i < 20
        invariant
            i <= 20,
            n == raw@.len(),
            start + 20 <= raw@.len(),
            arr@.len() == 20,
            forall|j: int| 0 <= j < i ==> arr@[j] == raw@[start + j],
        decreases 20 - i,
    {
        arr[i] = raw[start + i];
        i = i + 1;
    }
    assert(arr@ =~= raw@.subrange(start as int, start + 20));
    arr
}

/// The files of a file list, in order.
fn files_from(items: &Vec<BencodeValue>) -> (r: Result<Vec<File>, TorrentError>)
    ensures
        match files_of(crate::bencode::model_seq(items@)) {
            Ok(fs) => r matches Ok(x) && files_view(x@) == fs,
            Err(e) => r matches Err(x) && x.model() == e,
        },
{
    proof {
        crate::bencode::lemma_model_seq(items@);
    }
    let ghost ms = crate::bencode::model_seq(items@);
    let mut files: Vec<File> = Vec::new();
    let mut k: usize = 0;
    assert(ms.take(0) =~= Seq::<BVal>::empty());
    assert(files_view(files@) =~= Seq::<FileView>::empty());
    while k < items.len()
        invariant
            k <= items@.len(),
            ms == crate::bencode::model_seq(items@),
            ms.len() == items@.len(),
            forall|j: int| 0 <= j < items@.len() ==> #[trigger] ms[j] == items@[j].model(),
            files_of(ms.take(k as int)) == Ok::<Seq<FileView>, MetaError>(files_view(files@)),
        decreases items@.len() - k,
    {
        assert(ms.take(k + 1).drop_last() =~= ms.take(k as int));
        assert(ms.take(k + 1).last() == ms[k as int]);
        match File::from_bencode(&items[k]) {
            Ok(f) => {
                let ghost b = files@;
                files.push(f);
                assert(files_view(files@) =~= files_view(b).push(f@));
            },
            Err(e) => {
                proof {
                    lemma_files_err_prefix(ms, k + 1);
                }
                return Err(e);
            },
        }
        k = k + 1;
    }
    assert(ms.take(items@.len() as int) =~= ms);
    Ok(files)
}

pub open spec fn opt_files(o: Option<Vec<File>>) -> Option<Seq<FileView>> {
    match o {
        Some(f) => Some(files_view(f@)),
        None => None,
    }
}

pub open spec fn opt_bytes(o: Option<Vec<u8>>) -> Option<Seq<u8>> {
    match o {
        Some(b) => Some(b@),
        None => None,
    }
}

impl Info {
    /// Reads the info dictionary of a torrent (see [`info_of`]).
    pub fn from_bencode(v: &BencodeValue) -> (r: Result<Info, TorrentError>)
        ensures
            match info_of(v.model()) {
                Ok(info) => r matches Ok(x) && x@ == info,
                Err(e) => r matches Err(x) && x.model() == e,
            },
    {
        let d = match v {
            BencodeValue::Dictionary(d) => d,
            _ => {
                return Err(TorrentError::NotADictionary);
            },
        };
        proof {
            crate::bencode::lemma_model_entries(d.entries@);
            crate::bencode::lemma_dict_model(*d);
        }
        let ghost es = d.model();
        let mut name: Option<String> = None;
        let mut files: Option<Vec<File>> = None;
        let mut length: Option<u64> = None;
        let mut md5sum: Option<String> = None;
        let mut private = false;
        let mut piece_length: Option<u32> = None;
        let mut pieces_raw: Option<Vec<u8>> = None;
        let mut i: usize = 0;
        assert(es.take(0) =~= Seq::<(Seq<u8>, BVal)>::empty());
        while i < d.entries.len()
            invariant
                i <= d.entries@.len(),
                es == d.model(),
                v.model() == BVal::Dict(es),
                es.len() == d.entries@.len(),
                forall|j: int| 0 <= j < d.entries@.len() ==> #[trigger] es[j] == (d.entries@[j].0@, d.entries@[j].1.model()),
                info_fold(es.take(i as int)) == Ok::<InfoAcc, MetaError>(InfoAcc {
                    name: opt_text(name),
                    files: opt_files(files),
                    length,
                    md5sum: opt_text(md5sum),
                    private,
                    piece_length,
                    pieces: opt_bytes(pieces_raw),
                }),
            decreases d.entries@.len() - i,
        {
            assert(es.take(i + 1).drop_last() =~= es.take(i as int));
            assert(es.take(i + 1).last() == es[i as int]);
            proof {
                reveal_strlit("piece length");
                reveal_strlit("pieces");
                reveal_strlit("name");
                reveal_strlit("files");
                reveal_strlit("length");
                reveal_strlit("md5sum");
                reveal_strlit("private");
            }
            let entry = &d.entries[i];
            let key = &entry.0;
            if key_is(key, "piece length") {
                match &entry.1 {
                    BencodeValue::Integer(n) => {
                        if 0 <= *n && *n <= u32::MAX as i64 {
                            piece_length = Some(*n as u32);
                        } else {
                            proof { lemma_info_fold_err_prefix(es, i + 1); }
                            return Err(TorrentError::InvalidField(String::from_str("piece length")));
                        }
                    },
                    _ => {
                        proof { lemma_info_fold_err_prefix(es, i + 1); }
                        return Err(TorrentError::InvalidField(String::from_str("piece length")));
                    },
                }
            } else if key_is(key, "pieces") {
                match &entry.1 {
                    BencodeValue::ByteString(b) => {
                        pieces_raw = Some(b.clone());
                    },
                    _ => {
                        proof { lemma_info_fold_err_prefix(es, i + 1); }
                        return Err(TorrentError::InvalidField(String::from_str("pieces")));
                    },
                }
            } else if key_is(key, "name") {
                match value_text(&entry.1) {
                    Some(t) => {
                        name = Some(t);
                    },
                    None => {
                        proof { lemma_info_fold_err_prefix(es, i + 1); }
                        return Err(TorrentError::InvalidField(String::from_str("name")));
                    },
                }
            } else if key_is(key, "files") {
                match &entry.1 {
                    BencodeValue::List(items) => {
                        match files_from(items) {
                            Ok(fs) => {
                                files = Some(fs);
                            },
                            Err(e) => {
                                proof { lemma_info_fold_err_prefix(es, i + 1); }
                                return Err(e);
                            },
                        }
                    },
                    _ => {
                        proof { lemma_info_fold_err_prefix(es, i + 1); }
                        return Err(TorrentError::InvalidField(String::from_str("files")));
                    },
                }
            } else if key_is(key, "length") {
                match &entry.1 {
                    BencodeValue::Integer(n) => {
                        if *n >= 0 {
                            length = Some(*n as u64);
                        } else {
                            proof { lemma_info_fold_err_prefix(es, i + 1); }
                            return Err(TorrentError::InvalidField(String::from_str("length")));
                        }
                    },
                    _ => {
                        proof { lemma_info_fold_err_prefix(es, i + 1); }
                        return Err(TorrentError::InvalidField(String::from_str("length")));
                    },
                }
            } else if key_is(key, "md5sum") {
                match value_text(&entry.1) {
                    Some(m) => {
                        md5sum = Some(m);
                    },
                    None => {
                        proof { lemma_info_fold_err_prefix(es, i + 1); }
                        return Err(TorrentError::InvalidField(String::from_str("md5sum")));
                    },
                }
            } else if key_is(key, "private") {
                match &entry.1 {
                    BencodeValue::Integer(n) => {
                        if 0 <= *n && *n <= 255 {
                            private = *n == 1;
                        } else {
                            proof { lemma_info_fold_err_prefix(es, i + 1); }
                            return Err(TorrentError::InvalidField(String::from_str("private")));
                        }
                    },
                    _ => {
                        proof { lemma_info_fold_err_prefix(es, i + 1); }
                        return Err(TorrentError::InvalidField(String::from_str("private")));
                    },
                }
            }
            i = i + 1;
        }
        assert(es.take(d.entries@.len() as int) =~= es);
        let (pl, raw) = match (piece_length, pieces_raw) {
            (Some(pl), Some(raw)) => (pl, raw),
            _ => {
                return Err(TorrentError::MissingField(String::from_str("piece length or pieces")));
            },
        };
        if raw.len() % 20 != 0 {
            return Err(TorrentError::MissingField(String::from_str("Invalid length for pieces")));
        }
        let n: usize = raw.len();
        let count = n / 20;
        let mut pieces: Vec<[u8; 20]> = Vec::new();
        let mut j: usize = 0;
        let ghost want = chunks20(raw@);
        while j < count
            invariant
                j <= count,
                n == raw@.len(),
                count == raw@.len() / 20,
                want == chunks20(raw@),
                pieces@.len() == j,
                forall|m: int| 0 <= m < j ==> #[trigger] pieces@[m]@ == want[m],
            decreases count - j,
        {
            assert(20 * j + 20 <= raw@.len()) by (nonlinear_arith)
                requires
                    j < count,
                    count == raw@.len() / 20,
            ;
            let chunk = chunk_at(&raw, 20 * j);
            pieces.push(chunk);
            j = j + 1;
        }
        assert(pieces@.map_values(|p: [u8; 20]| p@) =~= want);
        let name = match name {
            Some(n) => n,
            None => {
                return Err(TorrentError::MissingField(String::from_str("name")));
            },
        };
        match files {
            Some(files) => Ok(Info { name, files, piece_length: pl, pieces, private }),
            None => match length {
                Some(l) => {
                    let path = name.clone();
                    let file = File { length: l, md5sum, path };
                    let files = vec![file];
                    assert(files_view(files@) =~= seq![file@]);
                    Ok(Info { name, files, piece_length: pl, pieces, private })
                },
                None => Err(TorrentError::MissingField(String::from_str("length"))),
            },
        }
    }
}

} // verus!
