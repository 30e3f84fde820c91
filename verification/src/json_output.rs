//! The statistics file: the session and each torrent as JSON.
use vstd::prelude::*;

use crate::config::Config;
use crate::strings::{nat_text, push_char, push_str, push_u64};
use crate::torrent::Torrent;

verus! {

/// The total uploaded over the torrents.
pub open spec fn total_of(ts: Seq<Torrent>) -> nat
    decreases ts.len(),
{
    if ts.len() == 0 {
        0
    } else {
        total_of(ts.drop_last()) + ts.last().uploaded as nat
    }
}

/// The total uploaded over the torrents; `None` when it does not fit in `u64`.
pub fn total_uploaded(torrents: &Vec<Torrent>) -> (r: Option<u64>)
    ensures
        match r {
            Some(t) => t == total_of(torrents@),
            None => total_of(torrents@) > u64::MAX,
        },
{
    let mut total: u64 = 0;
    let mut i: usize = 0;
    assert(torrents@.take(0) =~= Seq::<Torrent>::empty());
    while i < torrents.len()
        invariant
            i <= torrents@.len(),
            total == total_of(torrents@.take(i as int)),
        decreases torrents@.len() - i,
    {
        assert(torrents@.take(i + 1).drop_last() =~= torrents@.take(i as int));
        match total.checked_add(torrents[i].uploaded) {
            Some(t) => {
                total = t;
            },
            None => {
                proof {
                    lemma_total_prefix(torrents@, i + 1);
                }
                return None;
            },
        }
        i = i + 1;
    }
    assert(torrents@.take(torrents@.len() as int) =~= torrents@);
    Some(total)
}

/// The total over a prefix is at most the total over the whole.
pub proof fn lemma_total_prefix(ts: Seq<Torrent>, k: int)
    requires
        0 <= k <= ts.len(),
    ensures
        total_of(ts.take(k)) <= total_of(ts),
    decreases ts.len() - k,
{
    if k < ts.len() {
        assert(ts.take(k + 1).drop_last() =~= ts.take(k));
        lemma_total_prefix(ts, k + 1);
    } else {
        assert(ts.take(k) =~= ts);
    }
}

/// The lines of the torrents, separated by commas.
pub open spec fn torrents_json(ts: Seq<Torrent>, k: int) -> Seq<char>
    decreases k,
{
    if k <= 0 {
        Seq::empty()
    } else {
        torrents_json(ts, k - 1) + (if k > 1 { seq![','] } else { Seq::empty() }) + ts[k - 1].json()
    }
}

/// The statistics file: when the session started, the client, the upload
/// rates, each torrent and the total uploaded.
pub open spec fn stats_text(started: Seq<char>, client: Seq<char>, config: Config, ts: Seq<Torrent>) -> Seq<char> {
    "{\"started\":\""@ + started + "\",\"client\":\""@ + client + "\",\"min_upload_rate\":"@
        + nat_text(config.min_upload_rate as nat) + ",\"max_upload_rate\":"@ + nat_text(config.max_upload_rate as nat)
        + ",\"torrents\":[\n"@ + torrents_json(ts, ts.len() as int) + "\n],\"total_uploaded\":"@
        + nat_text(total_of(ts)) + "}"@
}

/// Writes the session statistics (see [`stats_text`]); `client` is the
/// client's name, empty when there is none.
pub fn stats_json(started: &str, client: &str, config: &Config, torrents: &Vec<Torrent>) -> (r: String)
    requires
        total_of(torrents@) <= u64::MAX,
    ensures
        r@ == stats_text(started@, client@, *config, torrents@),
{
    let mut data = String::new();
    push_str(&mut data, "{\"started\":\"");
    push_str(&mut data, started);
    push_str(&mut data, "\",\"client\":\"");
    push_str(&mut data, client);
    push_str(&mut data, "\",\"min_upload_rate\":");
    push_u64(&mut data, config.min_upload_rate as u64);
    push_str(&mut data, ",\"max_upload_rate\":");
    push_u64(&mut data, config.max_upload_rate as u64);
    push_str(&mut data, ",\"torrents\":[\n");
    let ghost head = data@;
    let mut total: u64 = 0;
    let mut i: usize = 0;
    assert(torrents@.take(0) =~= Seq::<Torrent>::empty());
    assert(data@ =~= head + torrents_json(torrents@, 0));
    while i < torrents.len()
        invariant
            i <= torrents@.len(),
            total_of(torrents@) <= u64::MAX,
            total == total_of(torrents@.take(i as int)),
            data@ == head + torrents_json(torrents@, i as int),
        decreases torrents@.len() - i,
    {
        assert(torrents@.take(i + 1).drop_last() =~= torrents@.take(i as int));
        proof {
            lemma_total_prefix(torrents@, i + 1);
        }
        let ghost before = data@;
        if i > 0 {
            push_char(&mut data, ',');
        }
        let t = &torrents[i];
        total = total + t.uploaded;
        let line = t.to_json();
        push_str(&mut data, line.as_str());
        assert(data@ =~= before + (if i + 1 > 1 { seq![','] } else { Seq::empty() }) + torrents@[i as int].json());
        i = i + 1;
    }
    assert(torrents@.take(torrents@.len() as int) =~= torrents@);
    push_str(&mut data, "\n],\"total_uploaded\":");
    push_u64(&mut data, total);
    push_str(&mut data, "}");
    data
}

} // verus!
