//! Which directory entries count as evidence when two folders are compared.
use vstd::prelude::*;

use crate::text::{ends_with, is_prefix, is_suffix, longer_than, lowercase_of, starts_with, to_lowercase};

verus! {

/// A directory whose name has more characters than this is significant.
pub const NAME_LIMIT: usize = 20;

/// One entry of a directory listing, as the operating system reports it.
#[derive(Clone, Debug)]
pub struct Entry {
    pub name: String,
    pub is_file: bool,
    pub is_dir: bool,
}

/// A file name with one of the video container extensions.
pub open spec fn is_media_name(name: Seq<char>) -> bool {
    is_suffix(name, ".mkv"@) || is_suffix(name, ".mp4"@) || is_suffix(name, ".avi"@)
}

/// A directory name that is long, or whose lowercase form `folded` starts with "season".
pub open spec fn is_marked_dir_name(name: Seq<char>, folded: Seq<char>) -> bool {
    name.len() > NAME_LIMIT || is_prefix(folded, "season"@)
}

/// How an entry counts: not at all (`None`), as a name only (`Some(false)`), or as a
/// name whose directory is walked as well (`Some(true)`).
pub open spec fn signal_kind(e: Entry) -> Option<bool> {
    if e.is_file {
        if is_media_name(e.name@) {
            Some(false)
        } else {
            None
        }
    } else if e.is_dir {
        if is_marked_dir_name(e.name@, lowercase_of(e.name@)) {
            Some(true)
        } else {
            None
        }
    } else {
        None
    }
}

/// The names of the entries that count, in listing order.
pub open spec fn signal_names(s: Seq<Entry>) -> Seq<Seq<char>>
    decreases s.len(),
{
    if s.len() == 0 {
        Seq::empty()
    } else {
        let rest = signal_names(s.drop_last());
        if signal_kind(s.last()) is Some {
            rest.push(s.last().name@)
        } else {
            rest
        }
    }
}

/// Whether a file name ends with a video container extension.
pub fn is_media_file(name: &str) -> (r: bool)
    ensures
        r == is_media_name(name@),
{
    ends_with(name, ".mkv") || ends_with(name, ".mp4") || ends_with(name, ".avi")
}

/// Whether a directory is significant, given its name and the lowercase form of it.
pub fn is_marked_dir(name: &str, folded: &str) -> (r: bool)
    ensures
        r == is_marked_dir_name(name@, folded@),
{
    longer_than(name, NAME_LIMIT) || starts_with(folded, "season")
}

/// Classifies one entry: the name to index, and whether its directory is walked too.
pub fn filter_file_dir(entry: &Entry) -> (r: Option<(String, bool)>)
    ensures
        match signal_kind(*entry) {
            None => r is None,
            Some(walk) => r is Some && r.unwrap().0@ == entry.name@ && r.unwrap().1 == walk,
        },
{
    if entry.is_file {
        if is_media_file(entry.name.as_str()) {
            return Some((entry.name.clone(), false));
        }
    } else if entry.is_dir {
        if longer_than(entry.name.as_str(), NAME_LIMIT) {
            return Some((entry.name.clone(), true));
        }
        let folded = to_lowercase(entry.name.as_str());
        if is_marked_dir(entry.name.as_str(), folded.as_str()) {
            return Some((entry.name.clone(), true));
        }
    }
    None
}

/// The signature of a folder: the names of its entries that count.
pub fn signature(entries: &Vec<Entry>) -> (r: Vec<String>)
    ensures
        r@.len() == signal_names(entries@).len(),
        forall|k: int| 0 <= k < r@.len() ==> #[trigger] r@[k]@ == signal_names(entries@)[k],
{
    let mut names: Vec<String> = Vec::new();
    let mut i: usize = 0;
    while i < entries.len()
        invariant
            0 <= i <= entries@.len(),
            names@.len() == signal_names(entries@.take(i as int)).len(),
            forall|k: int| 0 <= k < names@.len() ==> #[trigger] names@[k]@ == signal_names(entries@.take(i as int))[k],
        decreases entries@.len() - i,
    {
        assert(entries@.take(i + 1).drop_last() =~= entries@.take(i as int));
        assert(entries@.take(i + 1).last() == entries@[i as int]);
        match filter_file_dir(&entries[i]) {
            Some((name, _)) => {
                names.push(name);
            },
            None => {},
        }
        i = i + 1;
    }
    assert(entries@.take(entries@.len() as int) =~= entries@);
    names
}

} // verus!
