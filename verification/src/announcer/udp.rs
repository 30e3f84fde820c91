//! UDP trackers (BEP 15): the packets sent, the replies read, and what a
//! reply changes in a torrent.
use vstd::prelude::*;

use crate::announcer::tracker::{
    announce_numwant, announce_port, parse_url, reported_upload, url_parts, Event,
    ClientProfile, UrlPartsView,
};
use crate::config::Config;
use crate::strings::{push_str, text_eq};
use crate::torrent::{duration_secs, duration_subsec_nanos, seconds_since, Torrent};

verus! {

#[verifier::external_type_specification]
#[verifier::external_body]
pub struct ExIoError(std::io::Error);

/// The magic constant that opens a connect request.
pub const PROTOCOL_ID: u64 = 0x41727101980;

/// The action of a connect request and of its reply.
pub const CONNECT_ACTION: u32 = 0;

/// The action of an announce request and of its reply.
pub const ANNOUNCE_ACTION: u32 = 1;

/// The action of a reply that carries an error message.
pub const ERROR_ACTION: u32 = 3;

/* ---------- big-endian integers ---------- */

/// `256` to the power `k`.
pub open spec fn pow256(k: nat) -> nat
    decreases k,
{
    if k == 0 {
        1
    } else {
        256 * pow256((k - 1) as nat)
    }
}

/// The low `width` bytes of `n`, most significant first.
pub open spec fn be_bytes(n: nat, width: nat) -> Seq<u8>
    decreases width,
{
    if width == 0 {
        Seq::empty()
    } else {
        be_bytes(n / 256, (width - 1) as nat).push((n % 256) as u8)
    }
}

/// The number that `bytes` write, most significant first.
pub open spec fn be_value(bytes: Seq<u8>) -> nat
    decreases bytes.len(),
{
    if bytes.len() == 0 {
        0
    } else {
        be_value(bytes.drop_last()) * 256 + bytes.last() as nat
    }
}

proof fn lemma_be_bytes_len(n: nat, width: nat)
    ensures
        be_bytes(n, width).len() == width,
    decreases width,
{
    if width > 0 {
        lemma_be_bytes_len(n / 256, (width - 1) as nat);
    }
}

proof fn lemma_be_value_bound(bytes: Seq<u8>)
    ensures
        be_value(bytes) < pow256(bytes.len()),
    decreases bytes.len(),
{
    if bytes.len() > 0 {
        lemma_be_value_bound(bytes.drop_last());
    }
}

/// Reading back `width` big-endian bytes gives the number written, taken
/// modulo `256^width`: the whole number when it fits.
pub proof fn lemma_be_round_trip(n: nat, width: nat)
    ensures
        be_value(be_bytes(n, width)) == n % pow256(width),
        n < pow256(width) ==> be_value(be_bytes(n, width)) == n,
    decreases width,
{
    if width == 0 {
    } else {
        let w1 = (width - 1) as nat;
        lemma_be_round_trip(n / 256, w1);
        lemma_be_bytes_len(n / 256, w1);
        let b = be_bytes(n / 256, w1).push((n % 256) as u8);
        assert(b.drop_last() =~= be_bytes(n / 256, w1));
        assert(pow256(w1) > 0) by {
            lemma_pow256_positive(w1);
        }
        vstd::arithmetic::div_mod::lemma_mod_breakdown(n as int, 256, pow256(w1) as int);
    }
}

proof fn lemma_pow256_positive(k: nat)
    ensures
        pow256(k) > 0,
    decreases k,
{
    if k > 0 {
        lemma_pow256_positive((k - 1) as nat);
    }
}

/// Appends the low `width` bytes of `n`, most significant first.
pub fn push_be(buf: &mut Vec<u8>, n: u64, width: usize)
    requires
        width <= 8,
    ensures
        final(buf)@ == old(buf)@ + be_bytes(n as nat, width as nat),
    decreases width,
{
    if width > 0 {
        push_be(buf, n / 256, width - 1);
        buf.push((n % 256) as u8);
        proof {
            let ghost w1 = (width - 1) as nat;
            assert(be_bytes(n as nat, width as nat) == be_bytes((n / 256) as nat, w1).push((n % 256) as u8));
        }
    } else {
        assert(old(buf)@ + be_bytes(n as nat, 0) =~= old(buf)@);
    }
}

/// The `width` bytes of `bytes` from `start`, read as a big-endian number.
pub fn read_be(bytes: &[u8], start: usize, width: usize) -> (r: u64)
    requires
        width <= 8,
        start + width <= bytes@.len(),
    ensures
        r == be_value(bytes@.subrange(start as int, start + width)),
{
    let mut v: u64 = 0;
    let mut i: usize = 0;
    let n: usize = bytes.len();
    proof {
        reveal_with_fuel(pow256, 9);
        assert(bytes@.subrange(start as int, start as int) =~= Seq::<u8>::empty());
    }
    while i < width
        invariant
            i <= width <= 8,
            start + width <= n == bytes@.len(),
            v == be_value(bytes@.subrange(start as int, start + i)),
        decreases width - i,
    {
        proof {
            lemma_be_value_bound(bytes@.subrange(start as int, start + i));
            lemma_pow256_le_2_56(i as nat);
            let s1 = bytes@.subrange(start as int, start + i + 1);
            assert(s1.drop_last() =~= bytes@.subrange(start as int, start + i));
        }
        v = v * 256 + bytes[start + i] as u64;
        i = i + 1;
    }
    v
}

proof fn lemma_pow256_le_2_56(k: nat)
    requires
        k < 8,
    ensures
        pow256(k) <= 0x100_0000_0000_0000,
{
    reveal_with_fuel(pow256, 8);
}

/* ---------- requests and replies ---------- */

/// What an announce to a UDP tracker sends.
#[derive(Debug)]
pub struct TrackerRequest {
    pub info_hash: [u8; 20],
    pub peer_id: [u8; 20],
    pub downloaded: u64,
    pub left: u64,
    pub uploaded: u64,
    pub event: Option<Event>,
    pub key: u32,
    pub num_want: i32,
    pub port: u16,
}

/// A peer of a compact peer list: an IPv4 address and a port.
#[derive(Debug, Clone, Copy, PartialEq, Eq)]
pub struct CompactPeer {
    pub ip: [u8; 4],
    pub port: u16,
}

/// What a UDP tracker answers to an announce.
#[derive(Debug)]
pub struct TrackerResponse {
    pub interval: u32,
    pub leechers: u32,
    pub seeders: u32,
    pub peers: Vec<CompactPeer>,
}

/// Why a UDP announce failed.
#[derive(Debug)]
pub enum TrackerError {
    IoError(std::io::Error),
    Timeout,
    InvalidResponse,
    TrackerError(String),
    ParseError,
}

impl From<std::io::Error> for TrackerError {
    fn from(err: std::io::Error) -> (r: Self) {
        TrackerError::IoError(err)
    }
}

impl vstd::std_specs::convert::FromSpecImpl<std::io::Error> for TrackerError {
    open spec fn obeys_from_spec() -> bool {
        true
    }

    open spec fn from_spec(v: std::io::Error) -> Self {
        TrackerError::IoError(v)
    }
}

/// Calls `Display` on an I/O error. The text comes from the operating system;
/// the contract claims nothing of it.
#[verifier::external_body]
fn io_error_text(e: &std::io::Error) -> String {
    format!("{}", e)
}

impl TrackerError {
    /// What the error says to a reader.
    pub fn message(&self) -> (r: String)
        ensures
            match self {
                TrackerError::IoError(_) => r@.len() >= 10 && r@.take(10) == "IO error: "@,
                TrackerError::Timeout => r@ == "connection timed out"@,
                TrackerError::InvalidResponse => r@ == "invalid response from tracker"@,
                TrackerError::TrackerError(msg) => r@ == "tracker error: "@ + msg@,
                TrackerError::ParseError => r@ == "failed to parse tracker URL"@,
            },
    {
        match self {
            TrackerError::IoError(e) => {
                let mut s = String::from_str("IO error: ");
                let t = io_error_text(e);
                proof {
                    reveal_strlit("IO error: ");
                }
                let ghost head = s@;
                push_str(&mut s, t.as_str());
                assert(s@.take(10) =~= head);
                s
            },
            TrackerError::Timeout => String::from_str("connection timed out"),
            TrackerError::InvalidResponse => String::from_str("invalid response from tracker"),
            TrackerError::TrackerError(msg) => {
                let mut s = String::from_str("tracker error: ");
                push_str(&mut s, msg.as_str());
                s
            },
            TrackerError::ParseError => String::from_str("failed to parse tracker URL"),
        }
    }
}

/// The bytes of a connect request.
pub open spec fn connect_packet(transaction_id: u32) -> Seq<u8> {
    be_bytes(PROTOCOL_ID as nat, 8) + be_bytes(CONNECT_ACTION as nat, 4) + be_bytes(transaction_id as nat, 4)
}

/// Builds a connect request.
pub fn connect_request(transaction_id: u32) -> (r: Vec<u8>)
    ensures
        r@ == connect_packet(transaction_id),
        r@.len() == 16,
{
    let mut packet: Vec<u8> = Vec::new();
    push_be(&mut packet, PROTOCOL_ID, 8);
    push_be(&mut packet, CONNECT_ACTION as u64, 4);
    push_be(&mut packet, transaction_id as u64, 4);
    proof {
        lemma_be_bytes_len(PROTOCOL_ID as nat, 8);
        lemma_be_bytes_len(CONNECT_ACTION as nat, 4);
        lemma_be_bytes_len(transaction_id as nat, 4);
    }
    assert(packet@ =~= connect_packet(transaction_id));
    packet
}

/// The big-endian number in `bytes[from..to]`.
pub open spec fn field(bytes: Seq<u8>, from: int, to: int) -> nat {
    be_value(bytes.subrange(from, to))
}

/// A connect reply that the request with `transaction_id` accepts: 16 bytes
/// or more, the connect action and the same transaction id.
pub open spec fn connect_reply_ok(bytes: Seq<u8>, transaction_id: u32) -> bool {
    &&& bytes.len() >= 16
    &&& field(bytes, 0, 4) == CONNECT_ACTION
    &&& field(bytes, 4, 8) == transaction_id
}

/// Reads a connect reply: the connection id, or `InvalidResponse` when the
/// reply is short or answers another request.
pub fn parse_connect_response(bytes: &[u8], transaction_id: u32) -> (r: Result<u64, TrackerError>)
    ensures
        match r {
            Ok(id) => connect_reply_ok(bytes@, transaction_id) && id == field(bytes@, 8, 16),
            Err(e) => !connect_reply_ok(bytes@, transaction_id) && e is InvalidResponse,
        },
{
    if bytes.len() < 16 {
        return Err(TrackerError::InvalidResponse);
    }
    let action = read_be(bytes, 0, 4);
    let received = read_be(bytes, 4, 4);
    if action != CONNECT_ACTION as u64 || received != transaction_id as u64 {
        return Err(TrackerError::InvalidResponse);
    }
    Ok(read_be(bytes, 8, 8))
}

/// The code of an event in an announce request (BEP 15): 0 none, 2 started, 3 stopped.
pub open spec fn event_code(event: Option<Event>) -> u32 {
    match event {
        Some(Event::Started) => 2,
        Some(Event::Stopped) => 3,
        None => 0,
    }
}

/// The two's-complement bits of `n` as an unsigned number.
pub open spec fn i32_bits(n: i32) -> nat {
    if n < 0 {
        (n + 0x1_0000_0000) as nat
    } else {
        n as nat
    }
}

/// The bytes of an announce request.
pub open spec fn announce_packet(connection_id: u64, transaction_id: u32, r: TrackerRequest) -> Seq<u8> {
    be_bytes(connection_id as nat, 8) + be_bytes(ANNOUNCE_ACTION as nat, 4) + be_bytes(transaction_id as nat, 4)
        + r.info_hash@ + r.peer_id@ + be_bytes(r.downloaded as nat, 8) + be_bytes(r.left as nat, 8)
        + be_bytes(r.uploaded as nat, 8) + be_bytes(event_code(r.event) as nat, 4) + be_bytes(0, 4)
        + be_bytes(r.key as nat, 4) + be_bytes(i32_bits(r.num_want), 4) + be_bytes(r.port as nat, 2)
}

/// Appends the bytes of an array.
fn push_bytes(buf: &mut Vec<u8>, bytes: &[u8; 20])
    ensures
        final(buf)@ == old(buf)@ + bytes@,
{
    let mut i: usize = 0;
    while i < 20
        invariant
            i <= 20,
            bytes@.len() == 20,
            buf@ == old(buf)@ + bytes@.take(i as int),
        decreases 20 - i,
    {
        buf.push(bytes[i]);
        i = i + 1;
        assert(buf@ =~= old(buf)@ + bytes@.take(i as int));
    }
    assert(bytes@.take(20) =~= bytes@);
}

/// Builds an announce request: 98 bytes.
pub fn announce_request(connection_id: u64, transaction_id: u32, request: &TrackerRequest) -> (r: Vec<u8>)
    ensures
        r@ == announce_packet(connection_id, transaction_id, *request),
        r@.len() == 98,
{
    let mut p: Vec<u8> = Vec::new();
    push_be(&mut p, connection_id, 8);
    push_be(&mut p, ANNOUNCE_ACTION as u64, 4);
    push_be(&mut p, transaction_id as u64, 4);
    push_bytes(&mut p, &request.info_hash);
    push_bytes(&mut p, &request.peer_id);
    push_be(&mut p, request.downloaded, 8);
    push_be(&mut p, request.left, 8);
    push_be(&mut p, request.uploaded, 8);
    let event_value: u32 = match request.event {
        Some(Event::Started) => 2,
        Some(Event::Stopped) => 3,
        None => 0,
    };
    push_be(&mut p, event_value as u64, 4);
    push_be(&mut p, 0, 4);
    push_be(&mut p, request.key as u64, 4);
    let num_want_bits: u64 = if request.num_want < 0 {
        (request.num_want as i64 + 0x1_0000_0000) as u64
    } else {
        request.num_want as u64
    };
    push_be(&mut p, num_want_bits, 4);
    push_be(&mut p, request.port as u64, 2);
    proof {
        lemma_be_bytes_len(connection_id as nat, 8);
        lemma_be_bytes_len(ANNOUNCE_ACTION as nat, 4);
        lemma_be_bytes_len(transaction_id as nat, 4);
        lemma_be_bytes_len(request.downloaded as nat, 8);
        lemma_be_bytes_len(request.left as nat, 8);
        lemma_be_bytes_len(request.uploaded as nat, 8);
        lemma_be_bytes_len(event_value as nat, 4);
        lemma_be_bytes_len(0, 4);
        lemma_be_bytes_len(request.key as nat, 4);
        lemma_be_bytes_len(num_want_bits as nat, 4);
        lemma_be_bytes_len(request.port as nat, 2);
    }
    assert(p@ =~= announce_packet(connection_id, transaction_id, *request));
    p
}

/// What `String::from_utf8_lossy` makes of `bytes`.
pub uninterp spec fn utf8_lossy(bytes: Seq<u8>) -> Seq<char>;

/// Calls `String::from_utf8_lossy` on `bytes[from..]`. The contract names the
/// result and states what the documentation says of valid UTF-8: it is
/// decoded unchanged.
#[verifier::external_body]
fn lossy_text(bytes: &[u8], from: usize) -> (r: String)
    requires
        from <= bytes@.len(),
    ensures
        r@ == utf8_lossy(bytes@.subrange(from as int, bytes@.len() as int)),
        vstd::utf8::valid_utf8(bytes@.subrange(from as int, bytes@.len() as int)) ==> r@
            == vstd::utf8::decode_utf8(bytes@.subrange(from as int, bytes@.len() as int)),
{
    String::from_utf8_lossy(&bytes[from..]).to_string()
}

/// A reply that carries an error message: 20 bytes or more with the error action.
pub open spec fn error_reply(bytes: Seq<u8>) -> bool {
    bytes.len() >= 20 && field(bytes, 0, 4) == ERROR_ACTION
}

/// A well-formed announce reply to the request with `transaction_id`: 20 bytes
/// or more, the announce action, the same transaction id, and a peer list of
/// whole 6-byte entries.
pub open spec fn announce_reply_ok(bytes: Seq<u8>, transaction_id: u32) -> bool {
    &&& bytes.len() >= 20
    &&& field(bytes, 0, 4) == ANNOUNCE_ACTION
    &&& field(bytes, 4, 8) == transaction_id
    &&& (bytes.len() - 20) % 6 == 0
}

/// `p` is the `j`-th entry of the peer list of the reply `bytes`.
pub open spec fn peer_entry(p: CompactPeer, bytes: Seq<u8>, j: int) -> bool {
    &&& p.ip@ == bytes.subrange(20 + 6 * j, 24 + 6 * j)
    &&& p.port == field(bytes, 24 + 6 * j, 26 + 6 * j)
}

/// Reads an announce reply. An error reply gives its message as
/// `TrackerError`; a reply that is short, answers another request or has a
/// broken peer list gives `InvalidResponse`; otherwise the interval, the
/// leechers, the seeders and the peers.
pub fn parse_announce_response(bytes: &[u8], transaction_id: u32) -> (r: Result<TrackerResponse, TrackerError>)
    ensures
        r is Ok <==> announce_reply_ok(bytes@, transaction_id),
        r matches Ok(resp) ==> {
            &&& resp.interval == field(bytes@, 8, 12)
            &&& resp.leechers == field(bytes@, 12, 16)
            &&& resp.seeders == field(bytes@, 16, 20)
            &&& resp.peers@.len() == (bytes@.len() - 20) / 6
            &&& forall|j: int| 0 <= j < resp.peers@.len() ==> peer_entry(#[trigger] resp.peers@[j], bytes@, j)
        },
        r matches Err(TrackerError::TrackerError(m)) <==> error_reply(bytes@),
        r matches Err(TrackerError::TrackerError(m)) ==> m@ == utf8_lossy(bytes@.subrange(8, bytes@.len() as int)),
        r matches Err(e) ==> (e is TrackerError || e is InvalidResponse),
{
    let n = bytes.len();
    if n < 20 {
        return Err(TrackerError::InvalidResponse);
    }
    let action = read_be(bytes, 0, 4);
    let received = read_be(bytes, 4, 4);
    if action == ERROR_ACTION as u64 {
        return Err(TrackerError::TrackerError(lossy_text(bytes, 8)));
    }
    if action != ANNOUNCE_ACTION as u64 || received != transaction_id as u64 {
        return Err(TrackerError::InvalidResponse);
    }
    if (n - 20) % 6 != 0 {
        return Err(TrackerError::InvalidResponse);
    }
    let interval = read_be(bytes, 8, 4);
    let leechers = read_be(bytes, 12, 4);
    let seeders = read_be(bytes, 16, 4);
    proof {
        reveal_with_fuel(pow256, 5);
        lemma_be_value_bound(bytes@.subrange(8, 12));
        lemma_be_value_bound(bytes@.subrange(12, 16));
        lemma_be_value_bound(bytes@.subrange(16, 20));
    }
    let count = (n - 20) / 6;
    let mut peers: Vec<CompactPeer> = Vec::new();
    let mut k: usize = 0;
    while k < count
        invariant
            n == bytes@.len(),
            n >= 20,
            count == (n - 20) / 6,
            k <= count,
            peers@.len() == k,
            forall|j: int| 0 <= j < k ==> peer_entry(#[trigger] peers@[j], bytes@, j),
        decreases count - k,
    {
        let base = 20 + 6 * k;
        let ip: [u8; 4] = [bytes[base], bytes[base + 1], bytes[base + 2], bytes[base + 3]];
        proof {
            reveal_with_fuel(pow256, 3);
            lemma_be_value_bound(bytes@.subrange(base + 4, base + 6));
        }
        let port = read_be(bytes, base + 4, 2) as u16;
        assert(ip@ =~= bytes@.subrange(base as int, base + 4));
        peers.push(CompactPeer { ip, port });
        k = k + 1;
    }
    Ok(TrackerResponse { interval: interval as u32, leechers: leechers as u32, seeders: seeders as u32, peers })
}

/* ---------- the tracker's address ---------- */

/// The host and port to reach for a UDP tracker URL: only the `udp` scheme,
/// with a host; the port is 80 when the URL gives none.
pub open spec fn udp_target_of(p: Option<UrlPartsView>) -> Option<(Seq<char>, u16)> {
    match p {
        Some(u) => if u.scheme == "udp"@ {
            match u.host {
                Some(h) => Some((h.text, match u.port {
                    Some(port) => port,
                    None => 80u16,
                })),
                None => None,
            }
        } else {
            None
        },
        None => None,
    }
}

/// Parses a UDP tracker URL into the host name to resolve and the port;
/// `ParseError` when the URL cannot be parsed, is not `udp` or has no host.
pub fn udp_target(url: &str) -> (r: Result<(String, u16), TrackerError>)
    ensures
        match r {
            Ok((host, port)) => udp_target_of(url_parts(url@)) == Some((host@, port)),
            Err(e) => udp_target_of(url_parts(url@)) is None && e is ParseError,
        },
{
    let parsed = match parse_url(url) {
        Some(p) => p,
        None => return Err(TrackerError::ParseError),
    };
    proof {
        reveal_strlit("udp");
    }
    if !text_eq(parsed.scheme.as_str(), "udp") {
        return Err(TrackerError::ParseError);
    }
    let port: u16 = match parsed.port {
        Some(p) => p,
        None => 80,
    };
    match parsed.host {
        Some(h) => Ok((h.text, port)),
        None => Err(TrackerError::ParseError),
    }
}

/// Which resolved address to use, given for each whether it is IPv4: the
/// first IPv4 one, else the first one; `None` when there is none.
pub fn preferred_address(is_ipv4: &Vec<bool>) -> (r: Option<usize>)
    ensures
        match r {
            Some(i) => i < is_ipv4@.len() && (forall|j: int| 0 <= j < i ==> !#[trigger] is_ipv4@[j])
                && (is_ipv4@[i as int] || (i == 0 && forall|j: int| 0 <= j < is_ipv4@.len() ==> !#[trigger] is_ipv4@[j])),
            None => is_ipv4@.len() == 0,
        },
{
    let mut i: usize = 0;
    while i < is_ipv4.len()
        invariant
            i <= is_ipv4@.len(),
            forall|j: int| 0 <= j < i ==> !#[trigger] is_ipv4@[j],
        decreases is_ipv4@.len() - i,
    {
        if is_ipv4[i] {
            return Some(i);
        }
        i = i + 1;
    }
    if is_ipv4.len() > 0 {
        Some(0)
    } else {
        None
    }
}

/// The error for a host name that resolved to no address.
pub fn unresolved_host(host: &str) -> (r: TrackerError)
    ensures
        r matches TrackerError::TrackerError(m) && m@ == "Could not resolve hostname: "@ + host@,
{
    let mut m = String::from_str("Could not resolve hostname: ");
    push_str(&mut m, host);
    TrackerError::TrackerError(m)
}

/* ---------- the request and what the reply changes ---------- */

/// The 20 bytes of a peer id: its first 20 bytes, or all of them followed by zeros.
pub open spec fn peer_id_field(bytes: Seq<u8>) -> Seq<u8> {
    if bytes.len() >= 20 {
        bytes.take(20)
    } else {
        bytes + Seq::new((20 - bytes.len()) as nat, |i: int| 0u8)
    }
}

/// The peer id as the fixed 20 bytes of a request.
pub fn peer_id_array(peer_id: &str) -> (r: [u8; 20])
    ensures
        r@ == peer_id_field(vstd::utf8::encode_utf8(peer_id@)),
{
    let bytes = peer_id.as_bytes();
    let n: usize = if bytes.len() >= 20 { 20 } else { bytes.len() };
    let mut arr: [u8; 20] = [0u8; 20];
    let mut i: usize = 0;
    while i < n
        invariant
            n <= 20,
            n <= bytes@.len(),
            i <= n,
            arr@.len() == 20,
            forall|j: int| 0 <= j < i ==> arr@[j] == bytes@[j],
            forall|j: int| i <= j < 20 ==> arr@[j] == 0u8,
        decreases n - i,
    {
        arr[i] = bytes[i];
        i = i + 1;
    }
    assert(arr@ =~= peer_id_field(vstd::utf8::encode_utf8(peer_id@)));
    arr
}

/// Builds the announce request sent for a torrent, `elapsed` seconds after its
/// last announce: its info hash, the client's peer id and key, the configured
/// port and number of peers (80 by default), nothing downloaded or left, and
/// the upload reported as for HTTP trackers.
pub fn udp_request_after(
    torrent: &Torrent,
    event: Option<Event>,
    client: &ClientProfile,
    config: &Config,
    elapsed: u64,
) -> (r: TrackerRequest)
    ensures
        r.info_hash == torrent.info_hash,
        r.peer_id@ == peer_id_field(vstd::utf8::encode_utf8(client.peer_id@)),
        r.downloaded == 0,
        r.left == 0,
        r.uploaded == reported_upload(torrent.next_upload_speed, event, elapsed),
        r.event == event,
        r.key == client.key,
        r.num_want == announce_numwant(Some(config)) as i32,
        r.port == announce_port(Some(config)),
{
    let uploaded: u64 = if event == Some(Event::Started) {
        0
    } else {
        match (torrent.next_upload_speed as u64).checked_mul(elapsed) {
            Some(v) => v,
            None => u64::MAX,
        }
    };
    let numwant: u16 = match config.numwant {
        Some(n) => n,
        None => 80,
    };
    TrackerRequest {
        info_hash: torrent.info_hash,
        peer_id: peer_id_array(client.peer_id.as_str()),
        downloaded: 0,
        left: 0,
        uploaded,
        event,
        key: client.key,
        num_want: numwant as i32,
        port: config.port,
    }
}

/// Builds the announce request for a torrent, the upload measured on the clock
/// since its last announce (see [`udp_request_after`]).
pub fn udp_request(torrent: &Torrent, event: Option<Event>, client: &ClientProfile, config: &Config) -> (r: TrackerRequest)
    ensures
        event == Some(Event::Started) ==> r.uploaded == 0,
        exists|elapsed: u64| r.uploaded == reported_upload(torrent.next_upload_speed, event, elapsed),
        r.info_hash == torrent.info_hash,
        r.peer_id@ == peer_id_field(vstd::utf8::encode_utf8(client.peer_id@)),
        r.downloaded == 0,
        r.left == 0,
        r.event == event,
        r.key == client.key,
        r.num_want == announce_numwant(Some(config)) as i32,
        r.port == announce_port(Some(config)),
{
    let elapsed: u64 = if event == Some(Event::Started) {
        0
    } else {
        seconds_since(&torrent.last_announce)
    };
    udp_request_after(torrent, event, client, config, elapsed)
}

/// What a UDP announce does to a torrent: on a reply, the upload reported is
/// added, the interval and the counts are taken from it (the counts cut to
/// 16 bits), the announce time becomes `now` and the error count goes back to
/// 0; on a failure the error count grows by one.
pub open spec fn after_udp_answer(
    t: Torrent,
    outcome: Result<TrackerResponse, TrackerError>,
    uploaded: u64,
    now: std::time::Instant,
) -> Torrent {
    match outcome {
        Ok(resp) => Torrent {
            uploaded: (t.uploaded + uploaded) as u64,
            interval: resp.interval as u64,
            seeders: resp.seeders as u16,
            leechers: resp.leechers as u16,
            last_announce: now,
            error_count: 0,
            ..t
        },
        Err(_) => Torrent { error_count: (t.error_count + 1) as u16, ..t },
    }
}

/// Applies the outcome of a UDP announce that reported `uploaded` bytes (see
/// [`after_udp_answer`]).
pub fn apply_udp_outcome(
    torrent: &mut Torrent,
    outcome: Result<TrackerResponse, TrackerError>,
    uploaded: u64,
    now: std::time::Instant,
)
    requires
        outcome is Ok ==> old(torrent).uploaded + uploaded <= u64::MAX,
        outcome is Err ==> old(torrent).error_count < u16::MAX,
    ensures
        *final(torrent) == after_udp_answer(*old(torrent), outcome, uploaded, now),
{
    match outcome {
        Ok(resp) => {
            torrent.uploaded = torrent.uploaded + uploaded;
            torrent.interval = resp.interval as u64;
            torrent.seeders = resp.seeders as u16;
            torrent.leechers = resp.leechers as u16;
            torrent.last_announce = now;
            torrent.error_count = 0;
        },
        Err(_) => {
            torrent.error_count = torrent.error_count + 1;
        },
    }
}

/* ---------- transaction ids ---------- */

#[verifier::external_type_specification]
#[verifier::external_body]
pub struct ExSystemTime(std::time::SystemTime);

/// Calls `SystemTime::now`. The result depends on the clock.
#[verifier::external_body]
fn system_now() -> std::time::SystemTime {
    std::time::SystemTime::now()
}

/// Calls `SystemTime::duration_since(UNIX_EPOCH)`: the time since the epoch,
/// `None` for a time before it. The contract claims nothing of the result.
#[verifier::external_body]
fn since_epoch(t: &std::time::SystemTime) -> Option<std::time::Duration> {
    t.duration_since(std::time::UNIX_EPOCH).ok()
}

/// The whole seconds and the nanoseconds since the epoch on the clock,
/// `None` for a clock set before it.
fn unix_time() -> (r: Option<(u64, u32)>)
    ensures
        r matches Some((_, nanos)) ==> nanos < 1_000_000_000,
{
    let now = system_now();
    match since_epoch(&now) {
        Some(d) => Some((duration_secs(&d), duration_subsec_nanos(&d))),
        None => None,
    }
}

/// The transaction id made from a time: the low 32 bits of the seconds plus
/// the nanoseconds, wrapping.
pub open spec fn transaction_id_of(secs: u64, nanos: u32) -> u32 {
    ((secs % 0x1_0000_0000 + nanos) % 0x1_0000_0000) as u32
}

/// The transaction id for a time given as seconds and nanoseconds.
pub fn transaction_id_from(secs: u64, nanos: u32) -> (r: u32)
    ensures
        r == transaction_id_of(secs, nanos),
{
    let low: u64 = secs % 0x1_0000_0000;
    ((low + nanos as u64) % 0x1_0000_0000) as u32
}

/// A transaction id from the clock (see [`transaction_id_of`]); 0 for a clock
/// set before the epoch.
pub fn generate_transaction_id() -> (r: u32) {
    match unix_time() {
        Some((secs, nanos)) => transaction_id_from(secs, nanos),
        None => 0,
    }
}

} // verus!
