//! Reacting to changes in the torrent directory: which files count, whether
//! a new torrent is kept, and which torrent a removed file stood for.
use vstd::prelude::*;

use crate::strings::{eq_ignore_ascii_case, same_ignoring_ascii_case, starts_with, text_eq, text_starts_with};
use crate::torrent::Torrent;

verus! {

/// What `Path::extension` gives for a path, read as text.
pub uninterp spec fn path_extension(path: Seq<char>) -> Option<Seq<char>>;

/// What `Path::file_stem` gives for a path, read as text.
pub uninterp spec fn path_stem(path: Seq<char>) -> Option<Seq<char>>;

/// Calls `Path::extension` and reads the extension with
/// `OsStr::to_string_lossy`. The contract names the result, a function of
/// the path alone.
#[verifier::external_body]
fn extension_of(path: &str) -> (r: Option<String>)
    ensures
        match r {
            Some(e) => path_extension(path@) == Some(e@),
            None => path_extension(path@) is None,
        },
{
    std::path::Path::new(path).extension().map(|e| e.to_string_lossy().into_owned())
}

/// Calls `Path::file_stem` and reads the stem with `OsStr::to_string_lossy`.
/// The contract names the result, a function of the path alone.
#[verifier::external_body]
fn stem_of(path: &str) -> (r: Option<String>)
    ensures
        match r {
            Some(e) => path_stem(path@) == Some(e@),
            None => path_stem(path@) is None,
        },
{
    std::path::Path::new(path).file_stem().map(|e| e.to_string_lossy().into_owned())
}

/// Whether two texts name the same path, as `Path`'s `==` compares them
/// (component by component).
pub uninterp spec fn same_path(a: Seq<char>, b: Seq<char>) -> bool;

/// Calls `==` on `Path::new(a)` and `Path::new(b)`. The contract names the
/// result, a function of the two texts alone, and states that a text names
/// the same path as itself.
#[verifier::external_body]
fn paths_equal(a: &str, b: &str) -> (r: bool)
    ensures
        r == same_path(a@, b@),
        a@ == b@ ==> r,
{
    std::path::Path::new(a) == std::path::Path::new(b)
}

/// A path of a torrent file: its extension is `torrent`, in any ASCII case.
pub open spec fn torrent_path(path: Seq<char>) -> bool {
    path_extension(path) matches Some(e) && same_ignoring_ascii_case(e, "torrent"@)
}

/// Only .torrent files are processed.
pub fn is_torrent_path(path: &str) -> (r: bool)
    ensures
        r == torrent_path(path@),
{
    match extension_of(path) {
        Some(e) => eq_ignore_ascii_case(e.as_str(), "torrent"),
        None => false,
    }
}

/// The kind of a change in the watched directory.
#[derive(Debug, Clone, Copy, PartialEq, Eq, Structural)]
pub enum FsChange {
    Create,
    Remove,
    Other,
}

/// File system event that we care about
#[derive(Debug, Clone)]
pub enum FsEvent {
    Added(String),
    Removed(String),
}

/// The event for a change to `path`: only torrent files count, and only
/// when they are created or removed.
pub fn fs_event(change: FsChange, path: String) -> (r: Option<FsEvent>)
    ensures
        !torrent_path(path@) ==> r is None,
        torrent_path(path@) ==> match change {
            FsChange::Create => r matches Some(FsEvent::Added(p)) && p@ == path@,
            FsChange::Remove => r matches Some(FsEvent::Removed(p)) && p@ == path@,
            FsChange::Other => r is None,
        },
{
    if !is_torrent_path(path.as_str()) {
        return None;
    }
    match change {
        FsChange::Create => Some(FsEvent::Added(path)),
        FsChange::Remove => Some(FsEvent::Removed(path)),
        FsChange::Other => None,
    }
}

/// What to do with a torrent read from a new file.
#[derive(Debug, Clone, Copy, PartialEq, Eq, Structural)]
pub enum Admission {
    /// It has no usable tracker URL.
    NoUrl,
    /// A torrent with the same hash is already seeded.
    Duplicate,
    /// It is added to the list.
    Add,
}

/// Some torrent of `list` has the URL-encoded hash `hash`.
pub open spec fn has_hash(list: Seq<Torrent>, hash: Seq<char>) -> bool {
    exists|i: int| 0 <= i < list.len() && (#[trigger] list[i]).info_hash_urlencoded@ == hash
}

/// The index of the first torrent of `list` with the URL-encoded hash `hash`.
pub fn position_of_hash(list: &Vec<Torrent>, hash: &str) -> (r: Option<usize>)
    ensures
        match r {
            Some(i) => i < list@.len() && list@[i as int].info_hash_urlencoded@ == hash@
                && forall|j: int| 0 <= j < i ==> (#[trigger] list@[j]).info_hash_urlencoded@ != hash@,
            None => !has_hash(list@, hash@),
        },
{
    let mut i: usize = 0;
    while i < list.len()
        invariant
            i <= list@.len(),
            forall|j: int| 0 <= j < i ==> (#[trigger] list@[j]).info_hash_urlencoded@ != hash@,
        decreases list@.len() - i,
    {
        if text_eq(list[i].info_hash_urlencoded.as_str(), hash) {
            return Some(i);
        }
        i = i + 1;
    }
    None
}

/// Decides whether a torrent read from a new file joins the list: not when
/// it has no URL, not when a torrent with the same hash is there.
pub fn admission(torrent: &Torrent, list: &Vec<Torrent>) -> (r: Admission)
    ensures
        torrent.urls@.len() == 0 ==> r == Admission::NoUrl,
        torrent.urls@.len() > 0 && has_hash(list@, torrent.info_hash_urlencoded@) ==> r == Admission::Duplicate,
        torrent.urls@.len() > 0 && !has_hash(list@, torrent.info_hash_urlencoded@) ==> r == Admission::Add,
{
    if torrent.urls.len() == 0 {
        return Admission::NoUrl;
    }
    match position_of_hash(list, torrent.info_hash_urlencoded.as_str()) {
        Some(_) => Admission::Duplicate,
        None => Admission::Add,
    }
}

/// The torrent stood for the removed file at `path`: the file it was loaded
/// from is `path`; without a known file, its name is the file's stem or
/// starts with it.
pub open spec fn stands_for(t: Torrent, path: Seq<char>) -> bool {
    match t.source_path {
        Some(source) => same_path(source@, path),
        None => path_stem(path) matches Some(stem) && (t.name@ == stem || starts_with(t.name@, stem)),
    }
}

/// Whether the torrent stood for the removed file at `path` (see [`stands_for`]).
pub fn matches_removed(t: &Torrent, path: &str) -> (r: bool)
    ensures
        r == stands_for(*t, path@),
{
    match &t.source_path {
        Some(source) => paths_equal(source.as_str(), path),
        None => match stem_of(path) {
            Some(stem) => text_eq(t.name.as_str(), stem.as_str()) || text_starts_with(t.name.as_str(), stem.as_str()),
            None => false,
        },
    }
}

/// The first torrent of the list that stood for the removed file at `path`.
pub fn find_removed(list: &Vec<Torrent>, path: &str) -> (r: Option<usize>)
    ensures
        match r {
            Some(i) => i < list@.len() && stands_for(list@[i as int], path@)
                && forall|j: int| 0 <= j < i ==> !stands_for(#[trigger] list@[j], path@),
            None => forall|j: int| 0 <= j < list@.len() ==> !stands_for(#[trigger] list@[j], path@),
        },
{
    let mut i: usize = 0;
    while i < list.len()
        invariant
            i <= list@.len(),
            forall|j: int| 0 <= j < i ==> !stands_for(#[trigger] list@[j], path@),
        decreases list@.len() - i,
    {
        if matches_removed(&list[i], path) {
            return Some(i);
        }
        i = i + 1;
    }
    None
}

/// The torrents of `list` whose URL-encoded hash is not `hash`, in order.
pub open spec fn without_hash(list: Seq<Torrent>, hash: Seq<char>) -> Seq<Torrent> {
    list.filter(hash_differs(hash))
}

/// The torrent's URL-encoded hash is not `hash`.
pub open spec fn hash_differs(hash: Seq<char>) -> spec_fn(Torrent) -> bool {
    |t: Torrent| t.info_hash_urlencoded@ != hash
}

/// After removing the torrents with a hash, none with that hash is left and
/// every other torrent of the list is still there.
pub proof fn lemma_removal(list: Seq<Torrent>, hash: Seq<char>)
    ensures
        forall|i: int| 0 <= i < without_hash(list, hash).len() ==> (#[trigger] without_hash(list, hash)[i]).info_hash_urlencoded@ != hash,
        forall|i: int| 0 <= i < list.len() && (#[trigger] list[i]).info_hash_urlencoded@ != hash ==> without_hash(list, hash).contains(list[i]),
        without_hash(list, hash).len() <= list.len(),
{
    let keep = hash_differs(hash);
    assert forall|i: int| 0 <= i < without_hash(list, hash).len() implies (#[trigger] without_hash(list, hash)[i]).info_hash_urlencoded@ != hash by {
        list.lemma_filter_pred(keep, i);
    }
    assert forall|i: int| 0 <= i < list.len() && (#[trigger] list[i]).info_hash_urlencoded@ != hash implies without_hash(list, hash).contains(list[i]) by {
        list.lemma_filter_contains(keep, i);
    }
    list.lemma_filter_len(keep);
}

/// Removes from the list the torrents with the URL-encoded hash `hash`,
/// keeping the others in order.
pub fn remove_with_hash(list: &mut Vec<Torrent>, hash: &str)
    ensures
        final(list)@ == without_hash(old(list)@, hash@),
{
    let ghost start = list@;
    let n: usize = list.len();
    let ghost keep = hash_differs(hash@);
    let mut rest: Vec<Torrent> = Vec::new();
    std::mem::swap(list, &mut rest);
    let mut kept: Vec<Torrent> = Vec::new();
    let mut i: usize = 0;
    assert(start.take(0).filter(keep) =~= Seq::<Torrent>::empty());
    assert(start.skip(0) =~= start);
    while rest.len() > 0
        invariant
            i <= start.len(),
            start.len() == n,
            rest@ == start.skip(i as int),
            kept@ == start.take(i as int).filter(keep),
            keep == hash_differs(hash@),
        decreases rest@.len(),
    {
        let t = rest.remove(0);
        assert(t == start[i as int]);
        assert(rest@ =~= start.skip(i + 1));
        proof {
            start.take(i as int).lemma_filter_push(t, keep);
            assert(start.take(i as int).push(t) =~= start.take(i + 1));
        }
        if !text_eq(t.info_hash_urlencoded.as_str(), hash) {
            kept.push(t);
        }
        i = i + 1;
    }
    assert(start.take(i as int) =~= start);
    *list = kept;
}

} // verus!
