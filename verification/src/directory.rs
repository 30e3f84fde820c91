//! Which files of the torrent directory are loaded.
use vstd::prelude::*;

use crate::strings::{ends_with, lower_text, lowercase, text_ends_with};

verus! {

/// The name of a torrent file: once lowercased, it ends with `.torrent`.
pub open spec fn torrent_file_name(name: Seq<char>) -> bool {
    ends_with(lowercase(name), ".torrent"@)
}

/// Whether the file name ends with `.torrent`, in any case.
pub fn has_torrent_suffix(name: &str) -> (r: bool)
    ensures
        r == torrent_file_name(name@),
{
    let lower = lower_text(name);
    text_ends_with(lower.as_str(), ".torrent")
}

pub open spec fn names_view(v: Seq<String>) -> Seq<Seq<char>> {
    v.map_values(|s: String| s@)
}

/// The torrent files among the names of a directory, in order.
pub fn torrent_files(names: &Vec<String>) -> (r: Vec<String>)
    ensures
        names_view(r@) == names_view(names@).filter(|n: Seq<char>| torrent_file_name(n)),
{
    let ghost all = names_view(names@);
    let ghost keep = |n: Seq<char>| torrent_file_name(n);
    let mut kept: Vec<String> = Vec::new();
    let mut i: usize = 0;
    assert(all.take(0).filter(keep) =~= Seq::<Seq<char>>::empty());
    assert(names_view(kept@) =~= Seq::<Seq<char>>::empty());
    while i < names.len()
        invariant
            i <= names@.len(),
            all == names_view(names@),
            keep == (|n: Seq<char>| torrent_file_name(n)),
            names_view(kept@) == all.take(i as int).filter(keep),
        decreases names@.len() - i,
    {
        proof {
            all.take(i as int).lemma_filter_push(all[i as int], keep);
            assert(all.take(i as int).push(all[i as int]) =~= all.take(i + 1));
        }
        if has_torrent_suffix(names[i].as_str()) {
            let ghost b = kept@;
            kept.push(names[i].clone());
            assert(names_view(kept@) =~= names_view(b).push(all[i as int]));
        }
        i = i + 1;
    }
    assert(all.take(names@.len() as int) =~= all);
    kept
}

} // verus!
