//! When to announce next: the time left for each torrent and the jitter that
//! spreads announces apart.
use vstd::prelude::*;

use crate::random::random_u64_up_to;
use crate::torrent::{effective_interval_of, seconds_since, Torrent};

verus! {

/// `interval` moved by `offset - interval / 20` seconds, saturating at both ends.
pub open spec fn jittered(interval: u64, offset: u64) -> u64 {
    let base = interval - interval / 20;
    if base + offset > u64::MAX {
        u64::MAX
    } else {
        (base + offset) as u64
    }
}

/// The interval with an offset drawn in `0..=2 * (interval / 20)` applied
/// (see [`jittered`]); intervals under 20 seconds are left as they are.
pub fn jitter_with(interval: u64, offset: u64) -> (r: u64)
    requires
        interval >= 20 ==> offset <= 2 * (interval / 20),
    ensures
        interval < 20 ==> r == interval,
        interval >= 20 ==> r == jittered(interval, offset),
{
    if interval < 20 {
        return interval;
    }
    let jitter_range = interval / 20;
    interval.saturating_sub(jitter_range).saturating_add(offset)
}

/// Add jitter (±5%) to an interval to prevent thundering herd effect.
/// Multiple torrents with similar intervals will announce at slightly different times.
pub fn add_jitter(interval: u64) -> (r: u64)
    ensures
        interval < 20 ==> r == interval,
        interval >= 20 ==> exists|offset: u64| offset <= 2 * (interval / 20) && r == jittered(interval, offset),
        interval - interval / 20 <= r <= interval + interval / 20,
{
    if interval < 20 {
        return interval;
    }
    let jitter_range = interval / 20;
    let offset = random_u64_up_to(jitter_range * 2);
    let r = jitter_with(interval, offset);
    proof {
        lemma_jitter_bounds(interval, offset);
    }
    r
}

/// A jittered interval stays within 5% of the interval (one twentieth, rounded down).
pub proof fn lemma_jitter_bounds(interval: u64, offset: u64)
    requires
        interval >= 20,
        offset <= 2 * (interval / 20),
    ensures
        interval - interval / 20 <= jittered(interval, offset) <= interval + interval / 20,
{
}

/// The seconds left before a torrent is due, `elapsed` seconds after its last
/// announce: its effective interval minus `elapsed`, not below 0.
pub open spec fn remaining_after(t: Torrent, elapsed: u64) -> u64 {
    let interval = effective_interval_of(t.interval, t.min_interval);
    if elapsed >= interval {
        0
    } else {
        (interval - elapsed) as u64
    }
}

/// Seconds remaining until this torrent is due, `elapsed` seconds after its
/// last announce.
pub fn time_until_announce_after(torrent: &Torrent, elapsed: u64) -> (r: u64)
    ensures
        r == remaining_after(*torrent, elapsed),
{
    torrent.effective_interval().saturating_sub(elapsed)
}

/// Seconds remaining until this torrent is due for its next announce, on
/// the clock (see [`time_until_announce_after`]).
pub fn time_until_announce(torrent: &Torrent) -> (r: u64)
    ensures
        exists|elapsed: u64| r == remaining_after(*torrent, elapsed),
        r <= effective_interval_of(torrent.interval, torrent.min_interval),
{
    let elapsed = seconds_since(&torrent.last_announce);
    time_until_announce_after(torrent, elapsed)
}

/// The time left is never more than the effective interval, and is 0 once
/// the interval has passed.
pub proof fn lemma_remaining_bounded(t: Torrent, elapsed: u64)
    ensures
        remaining_after(t, elapsed) <= effective_interval_of(t.interval, t.min_interval),
        elapsed >= effective_interval_of(t.interval, t.min_interval) ==> remaining_after(t, elapsed) == 0,
        remaining_after(t, 0) == effective_interval_of(t.interval, t.min_interval),
{
}

/// The least of `s`, or `u64::MAX` for an empty sequence.
pub open spec fn min_of(s: Seq<u64>) -> u64
    decreases s.len(),
{
    if s.len() == 0 {
        u64::MAX
    } else {
        let m = min_of(s.drop_last());
        if s.last() < m {
            s.last()
        } else {
            m
        }
    }
}

/// The least of a non-empty sequence is one of its elements and no element
/// is below it; the least of none is `u64::MAX`.
pub proof fn lemma_min_of(s: Seq<u64>)
    ensures
        s.len() == 0 ==> min_of(s) == u64::MAX,
        s.len() > 0 ==> s.contains(min_of(s)),
        forall|i: int| 0 <= i < s.len() ==> min_of(s) <= #[trigger] s[i],
    decreases s.len(),
{
    if s.len() > 0 {
        let init = s.drop_last();
        lemma_min_of(init);
        assert forall|i: int| 0 <= i < init.len() implies init[i] == s[i] by {}
        assert(s[s.len() - 1] == s.last());
        if init.len() > 0 && min_of(init) <= s.last() {
            let w = choose|w: int| 0 <= w < init.len() && init[w] == min_of(init);
            assert(s[w] == min_of(s));
        }
    }
}

/// The least time left over the torrents, `u64::MAX` when there is none.
pub fn min_remaining(remaining: &Vec<u64>) -> (r: u64)
    ensures
        r == min_of(remaining@),
{
    let mut m: u64 = u64::MAX;
    let mut i: usize = 0;
    while i < remaining.len()
        invariant
            i <= remaining@.len(),
            m == min_of(remaining@.take(i as int)),
        decreases remaining@.len() - i,
    {
        assert(remaining@.take(i + 1).drop_last() =~= remaining@.take(i as int));
        if remaining[i] < m {
            m = remaining[i];
        }
        i = i + 1;
    }
    assert(remaining@.take(remaining@.len() as int) =~= remaining@);
    m
}

/// The least non-zero time of `s`, `None` when every time is 0 (or there is none).
pub open spec fn least_nonzero(s: Seq<u64>) -> Option<u64>
    decreases s.len(),
{
    if s.len() == 0 {
        None
    } else {
        let m = least_nonzero(s.drop_last());
        if s.last() == 0 {
            m
        } else {
            match m {
                Some(x) => if s.last() < x { Some(s.last()) } else { Some(x) },
                None => Some(s.last()),
            }
        }
    }
}

/// The least non-zero time left over the torrents.
pub fn min_nonzero_remaining(remaining: &Vec<u64>) -> (r: Option<u64>)
    ensures
        r == least_nonzero(remaining@),
{
    let mut m: Option<u64> = None;
    let mut i: usize = 0;
    while i < remaining.len()
        invariant
            i <= remaining@.len(),
            m == least_nonzero(remaining@.take(i as int)),
        decreases remaining@.len() - i,
    {
        assert(remaining@.take(i + 1).drop_last() =~= remaining@.take(i as int));
        let x = remaining[i];
        if x != 0 {
            m = match m {
                Some(y) => if x < y { Some(x) } else { Some(y) },
                None => Some(x),
            };
        }
        i = i + 1;
    }
    assert(remaining@.take(remaining@.len() as int) =~= remaining@);
    m
}

/// The least non-zero time is one of the times, and no non-zero time is less.
pub proof fn lemma_least_nonzero(s: Seq<u64>)
    ensures
        least_nonzero(s) is None <==> forall|i: int| 0 <= i < s.len() ==> s[i] == 0,
        least_nonzero(s) matches Some(m) ==> m > 0 && s.contains(m)
            && forall|i: int| 0 <= i < s.len() && s[i] != 0 ==> m <= #[trigger] s[i],
    decreases s.len(),
{
    if s.len() > 0 {
        let init = s.drop_last();
        lemma_least_nonzero(init);
        assert forall|i: int| 0 <= i < init.len() implies init[i] == s[i] by {}
        assert(s[s.len() - 1] == s.last());
        if let Some(m) = least_nonzero(init) {
            let w = choose|w: int| 0 <= w < init.len() && init[w] == m;
            assert(s[w] == m);
        }
    }
}

/// The seconds to sleep before the next round, given the time left for each
/// torrent: `fallback` when there are no torrents or every one has 0 s left;
/// otherwise the least time left, with jitter.
pub fn next_announce_delay(remaining: &Vec<u64>, fallback: u64) -> (r: u64)
    ensures
        least_nonzero(remaining@) is None ==> r == fallback,
        least_nonzero(remaining@) is Some ==> {
            let m = min_of(remaining@);
            &&& m < 20 ==> r == m
            &&& m >= 20 ==> exists|offset: u64| offset <= 2 * (m / 20) && r == jittered(m, offset)
        },
{
    match min_nonzero_remaining(remaining) {
        None => fallback,
        Some(_) => add_jitter(min_remaining(remaining)),
    }
}

} // verus!
