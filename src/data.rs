//! The records of a run: one per source entry, and the changes made to them by path.
use vstd::prelude::*;

use crate::config::{Action, Config};
use crate::registry::CacheMap;
use crate::signal::Entry;
use crate::source_anime_map::{children, FileType, SourceAnimeMap};
use crate::text::{ends_with, is_suffix, str_eq};
use crate::cache::Cache;
use crate::walker::{item_ok, walked};

verus! {

/// Builds a fresh active record.
pub fn bulid_anime_map(source: String, anime: String, file_type: FileType) -> (r: SourceAnimeMap)
    ensures
        r.source == source,
        r.anime == anime,
        r.active,
        r.file_type == file_type,
{
    SourceAnimeMap { source, anime, active: true, file_type }
}

/// The record at path `(i, j)`: child `j` of a nested record `i`, or record `i` itself.
pub open spec fn rec_at(maps: Seq<SourceAnimeMap>, i: int, j: int) -> SourceAnimeMap {
    if maps[i].file_type is Nesting {
        children(maps[i])[j]
    } else {
        maps[i]
    }
}

/// `(i, j)` names a record of `maps`.
pub open spec fn path_ok(maps: Seq<SourceAnimeMap>, i: int, j: int) -> bool {
    &&& 0 <= i < maps.len()
    &&& maps[i].file_type is Nesting ==> 0 <= j < children(maps[i]).len()
}

/// The first record of `maps` with source `name` is at `k`.
pub open spec fn first_source_at(maps: Seq<SourceAnimeMap>, name: Seq<char>, k: int) -> bool {
    &&& 0 <= k < maps.len()
    &&& maps[k].source@ == name
    &&& forall|l: int| 0 <= l < k ==> (#[trigger] maps[l]).source@ != name
}

/// A run: its records, the names of the sources recorded before it, and its settings.
pub struct Data {
    pub data: RealData,
    pub source_map: Vec<String>,
    pub config: Config,
}

impl Data {
    /// A run with no records.
    pub fn new(config: Config) -> (r: Data)
        ensures
            r.data.source_anime_maps@.len() == 0,
            r.data.animes@.len() == 0,
            r.source_map@.len() == 0,
            r.config == config,
            r.sources_recorded(),
    {
        Data { data: RealData::default(), source_map: Vec::new(), config }
    }
}

/// Queue item `item` addresses record `(i, j)` of `maps`: child `j` of nested record `i`,
/// or record `i` itself whatever its second index.
pub open spec fn addresses<T>(maps: Seq<SourceAnimeMap>, item: (usize, usize, T), i: int, j: int) -> bool {
    &&& item.0 == i
    &&& maps[i].file_type is Nesting ==> item.1 == j
}

/// The value of the last item of `q` that addresses record `(i, j)` of `maps`, if any.
pub open spec fn last_at<T>(maps: Seq<SourceAnimeMap>, q: Seq<(usize, usize, T)>, i: int, j: int) -> Option<T>
    decreases q.len(),
{
    if q.len() == 0 {
        None
    } else if addresses(maps, q.last(), i, j) {
        Some(q.last().2)
    } else {
        last_at(maps, q.drop_last(), i, j)
    }
}

/// The target a record ends with: the last one queued for it, else its own.
pub open spec fn named_after(own: SourceAnimeMap, last: Option<String>) -> Seq<char> {
    match last {
        Some(x) => x@,
        None => own.anime@,
    }
}

/// The active flag a record ends with: the last one queued for it, else its own.
pub open spec fn flagged_after(own: SourceAnimeMap, last: Option<bool>) -> bool {
    match last {
        Some(x) => x,
        None => own.active,
    }
}

/// `new` is `old` where each queued record took the target last queued for it.
pub open spec fn names_set(old: Seq<SourceAnimeMap>, new: Seq<SourceAnimeMap>, q: Seq<(usize, usize, String)>) -> bool {
    &&& new.len() == old.len()
    &&& forall|i: int|
        0 <= i < old.len() ==> {
            let o = old[i];
            let n = #[trigger] new[i];
            &&& n.source == o.source
            &&& n.active == o.active
            &&& if o.file_type is Nesting {
                &&& n.file_type is Nesting
                &&& n.anime == o.anime
                &&& children(n).len() == children(o).len()
                &&& forall|j: int|
                    0 <= j < children(o).len() ==> {
                        let oc = children(o)[j];
                        let nc = #[trigger] children(n)[j];
                        &&& nc.source == oc.source
                        &&& nc.active == oc.active
                        &&& nc.file_type == oc.file_type
                        &&& nc.anime@ == named_after(oc, last_at(old, q, i, j))
                    }
            } else {
                &&& n.file_type == o.file_type
                &&& n.anime@ == named_after(o, last_at(old, q, i, 0))
            }
        }
}

/// `new` is `old` where each queued record took the active flag last queued for it.
pub open spec fn flags_set(old: Seq<SourceAnimeMap>, new: Seq<SourceAnimeMap>, q: Seq<(usize, usize, bool)>) -> bool {
    &&& new.len() == old.len()
    &&& forall|i: int|
        0 <= i < old.len() ==> {
            let o = old[i];
            let n = #[trigger] new[i];
            &&& n.source == o.source
            &&& n.anime == o.anime
            &&& if o.file_type is Nesting {
                &&& n.file_type is Nesting
                &&& n.active == o.active
                &&& children(n).len() == children(o).len()
                &&& forall|j: int|
                    0 <= j < children(o).len() ==> {
                        let oc = children(o)[j];
                        let nc = #[trigger] children(n)[j];
                        &&& nc.source == oc.source
                        &&& nc.anime == oc.anime
                        &&& nc.file_type == oc.file_type
                        &&& nc.active == flagged_after(oc, last_at(old, q, i, j))
                    }
            } else {
                &&& n.file_type == o.file_type
                &&& n.active == flagged_after(o, last_at(old, q, i, 0))
            }
        }
}

/// Every item of `q` names a record of `maps`.
pub open spec fn paths_ok<T>(maps: Seq<SourceAnimeMap>, q: Seq<(usize, usize, T)>) -> bool {
    forall|k: int| 0 <= k < q.len() ==> path_ok(maps, (#[trigger] q[k]).0 as int, q[k].1 as int)
}

/// One more item changes only what it addresses.
proof fn lemma_last_at_step<T>(maps: Seq<SourceAnimeMap>, q: Seq<(usize, usize, T)>, k: int, i: int, j: int)
    requires
        0 <= k < q.len(),
    ensures
        last_at(maps, q.take(k + 1), i, j) == if addresses(maps, q[k], i, j) {
            Some(q[k].2)
        } else {
            last_at(maps, q.take(k), i, j)
        },
{
    assert(q.take(k + 1).drop_last() =~= q.take(k));
    assert(q.take(k + 1).last() == q[k]);
}

/// A single item's last value is its own where it addresses the record, else nothing.
proof fn lemma_last_at_one<T>(maps: Seq<SourceAnimeMap>, item: (usize, usize, T), i: int, j: int)
    ensures
        last_at(maps, seq![item], i, j) == if addresses(maps, item, i, j) {
            Some(item.2)
        } else {
            None::<T>
        },
{
    reveal_with_fuel(last_at, 2);
    assert(seq![item].drop_last() =~= Seq::<(usize, usize, T)>::empty());
    assert(seq![item].last() == item);
}

/// Setting the targets of a queue's prefix, then of its next item, sets those of the
/// longer prefix.
proof fn lemma_names_compose(
    old: Seq<SourceAnimeMap>,
    cur: Seq<SourceAnimeMap>,
    new: Seq<SourceAnimeMap>,
    q: Seq<(usize, usize, String)>,
    k: int,
)
    requires
        0 <= k < q.len(),
        names_set(old, cur, q.take(k)),
        names_set(cur, new, seq![q[k]]),
    ensures
        names_set(old, new, q.take(k + 1)),
{
    assert forall|i: int| 0 <= i < old.len() implies {
        let o = old[i];
        let n = #[trigger] new[i];
        &&& n.source == o.source
        &&& n.active == o.active
        &&& if o.file_type is Nesting {
            &&& n.file_type is Nesting
            &&& n.anime == o.anime
            &&& children(n).len() == children(o).len()
            &&& forall|j: int|
                0 <= j < children(o).len() ==> {
                    let oc = children(o)[j];
                    let nc = #[trigger] children(n)[j];
                    &&& nc.source == oc.source
                    &&& nc.active == oc.active
                    &&& nc.file_type == oc.file_type
                    &&& nc.anime@ == named_after(oc, last_at(old, q.take(k + 1), i, j))
                }
        } else {
            &&& n.file_type == o.file_type
            &&& n.anime@ == named_after(o, last_at(old, q.take(k + 1), i, 0))
        }
    } by {
        let c = cur[i];
        if old[i].file_type is Nesting {
            assert forall|j: int| 0 <= j < children(old[i]).len() implies {
                let oc = children(old[i])[j];
                let nc = #[trigger] children(new[i])[j];
                &&& nc.source == oc.source
                &&& nc.active == oc.active
                &&& nc.file_type == oc.file_type
                &&& nc.anime@ == named_after(oc, last_at(old, q.take(k + 1), i, j))
            } by {
                lemma_last_at_step(old, q, k, i, j);
                lemma_last_at_one(cur, q[k], i, j);
                assert(children(c)[j] == children(cur[i])[j]);
            }
        } else {
            lemma_last_at_step(old, q, k, i, 0);
            lemma_last_at_one(cur, q[k], i, 0);
        }
    }
}

/// Setting the active flags of a queue's prefix, then of its next item, sets those of
/// the longer prefix.
proof fn lemma_flags_compose(
    old: Seq<SourceAnimeMap>,
    cur: Seq<SourceAnimeMap>,
    new: Seq<SourceAnimeMap>,
    q: Seq<(usize, usize, bool)>,
    k: int,
)
    requires
        0 <= k < q.len(),
        flags_set(old, cur, q.take(k)),
        flags_set(cur, new, seq![q[k]]),
    ensures
        flags_set(old, new, q.take(k + 1)),
{
    assert forall|i: int| 0 <= i < old.len() implies {
        let o = old[i];
        let n = #[trigger] new[i];
        &&& n.source == o.source
        &&& n.anime == o.anime
        &&& if o.file_type is Nesting {
            &&& n.file_type is Nesting
            &&& n.active == o.active
            &&& children(n).len() == children(o).len()
            &&& forall|j: int|
                0 <= j < children(o).len() ==> {
                    let oc = children(o)[j];
                    let nc = #[trigger] children(n)[j];
                    &&& nc.source == oc.source
                    &&& nc.anime == oc.anime
                    &&& nc.file_type == oc.file_type
                    &&& nc.active == flagged_after(oc, last_at(old, q.take(k + 1), i, j))
                }
        } else {
            &&& n.file_type == o.file_type
            &&& n.active == flagged_after(o, last_at(old, q.take(k + 1), i, 0))
        }
    } by {
        let c = cur[i];
        if old[i].file_type is Nesting {
            assert forall|j: int| 0 <= j < children(old[i]).len() implies {
                let oc = children(old[i])[j];
                let nc = #[trigger] children(new[i])[j];
                &&& nc.source == oc.source
                &&& nc.anime == oc.anime
                &&& nc.file_type == oc.file_type
                &&& nc.active == flagged_after(oc, last_at(old, q.take(k + 1), i, j))
            } by {
                lemma_last_at_step(old, q, k, i, j);
                lemma_last_at_one(cur, q[k], i, j);
                assert(children(c)[j] == children(cur[i])[j]);
            }
        } else {
            lemma_last_at_step(old, q, k, i, 0);
            lemma_last_at_one(cur, q[k], i, 0);
        }
    }
}

/// What adding a source entry to the records did.
#[derive(Debug, PartialEq, Eq, Structural, Clone, Copy)]
pub enum Pushed {
    /// A record was added for a source not seen before.
    New,
    /// The record of a source seen before was refreshed.
    Renewed,
    /// A source seen before was left as it was.
    Skipped,
}

/// Some record of `maps` has source `name`.
pub open spec fn recorded(maps: Seq<SourceAnimeMap>, name: Seq<char>) -> bool {
    exists|k: int| 0 <= k < maps.len() && (#[trigger] maps[k]).source@ == name
}

/// Some string of `names` is `name`.
pub open spec fn listed(names: Seq<String>, name: Seq<char>) -> bool {
    exists|k: int| 0 <= k < names.len() && (#[trigger] names[k])@ == name
}

/// A sub-record for each entry of a listing: its name, no target, active, a folder.
pub open spec fn dir_records(entries: Seq<Entry>, maps: Seq<SourceAnimeMap>) -> bool {
    &&& maps.len() == entries.len()
    &&& forall|c: int|
        0 <= c < maps.len() ==> {
            let m = #[trigger] maps[c];
            &&& m.source@ == entries[c].name@
            &&& m.anime@.len() == 0
            &&& m.active
            &&& m.file_type == FileType::Dir
        }
}

impl Data {
    /// A run that starts from the records kept by an earlier one; the target names are
    /// listed afresh, so none are taken over.
    pub fn from_maps(config: Config, maps: Vec<SourceAnimeMap>) -> (r: Data)
        ensures
            r.data.source_anime_maps == maps,
            r.data.animes@.len() == 0,
            r.config == config,
            r.sources_recorded(),
            forall|k: int| 0 <= k < maps@.len() ==> listed(r.source_map@, (#[trigger] maps@[k]).source@),
    {
        let mut source_map: Vec<String> = Vec::new();
        let mut k: usize = 0;
        while k < maps.len()
            invariant
                0 <= k <= maps@.len(),
                source_map@.len() == k,
                forall|l: int| 0 <= l < k ==> (#[trigger] source_map@[l])@ == maps@[l].source@,
            decreases maps@.len() - k,
        {
            source_map.push(maps[k].source.clone());
            k = k + 1;
        }
        let r = Data { data: RealData { source_anime_maps: maps, animes: Vec::new() }, source_map, config };
        assert forall|l: int| 0 <= l < r.source_map@.len() implies recorded(
            r.data.source_anime_maps@,
            (#[trigger] r.source_map@[l])@,
        ) by {
            assert(r.data.source_anime_maps@[l].source@ == r.source_map@[l]@);
        }
        assert forall|l: int| 0 <= l < maps@.len() implies listed(r.source_map@, (#[trigger] maps@[l]).source@) by {
            assert(r.source_map@[l]@ == maps@[l].source@);
        }
        r
    }

    /// Every source recorded before this run still has a record.
    pub open spec fn sources_recorded(self) -> bool {
        forall|l: int| 0 <= l < self.source_map@.len() ==> recorded(self.data.source_anime_maps@, (#[trigger] self.source_map@[l])@)
    }

    /// Whether a source entry would be left as it is: a source seen before, while the
    /// action is not `Renew`.
    pub fn is_skipped(&self, name: &str) -> (r: bool)
        ensures
            r == (listed(self.source_map@, name@) && self.config.action != Action::Renew),
    {
        let mut k: usize = 0;
        while k < self.source_map.len()
            invariant
                0 <= k <= self.source_map@.len(),
                forall|l: int| 0 <= l < k ==> (#[trigger] self.source_map@[l])@ != name@,
            decreases self.source_map@.len() - k,
        {
            if str_eq(self.source_map[k].as_str(), name) {
                return match self.config.action {
                    Action::Renew => false,
                    _ => true,
                };
            }
            k = k + 1;
        }
        false
    }

    /// Adds a source entry found in the source folder: a new record for a source not seen
    /// before; for one seen before, a refreshed record when the action is `Renew`, else
    /// nothing.
    pub fn push_map(&mut self, name: String, file_type: FileType) -> (r: Pushed)
        requires
            old(self).sources_recorded(),
        ensures
            final(self).sources_recorded(),
            final(self).source_map == old(self).source_map,
            final(self).config == old(self).config,
            final(self).data.animes == old(self).data.animes,
            !listed(old(self).source_map@, name@) ==> r == Pushed::New
                && final(self).data.source_anime_maps@.len() == old(self).data.source_anime_maps@.len() + 1
                && final(self).data.source_anime_maps@.drop_last() == old(self).data.source_anime_maps@
                && final(self).data.source_anime_maps@.last().source == name
                && final(self).data.source_anime_maps@.last().anime@.len() == 0
                && final(self).data.source_anime_maps@.last().active
                && final(self).data.source_anime_maps@.last().file_type == file_type,
            listed(old(self).source_map@, name@) && old(self).config.action == Action::Renew ==> r
                == Pushed::Renewed && final(self).data.source_anime_maps@.len() == old(self).data.source_anime_maps@.len(),
            listed(old(self).source_map@, name@) && old(self).config.action != Action::Renew ==> r
                == Pushed::Skipped && final(self).data == old(self).data,
    {
        let mut k: usize = 0;
        let mut seen = false;
        while k < self.source_map.len()
            invariant
                0 <= k <= self.source_map@.len(),
                seen ==> listed(self.source_map@, name@),
                !seen ==> forall|l: int| 0 <= l < k ==> (#[trigger] self.source_map@[l])@ != name@,
            decreases self.source_map@.len() - k,
        {
            if !seen && str_eq(self.source_map[k].as_str(), name.as_str()) {
                seen = true;
            }
            k = k + 1;
        }
        if seen {
            match self.config.action {
                Action::Renew => {
                    let ghost before = self.data.source_anime_maps@;
                    proof {
                        let l = choose|l: int| 0 <= l < self.source_map@.len() && (#[trigger] self.source_map@[l])@ == name@;
                        assert(recorded(before, self.source_map@[l]@));
                    }
                    self.data.push_renew_map(name, file_type);
                    proof {
                        let after = self.data.source_anime_maps@;
                        assert forall|l: int| 0 <= l < self.source_map@.len() implies recorded(
                            after,
                            (#[trigger] self.source_map@[l])@,
                        ) by {
                            let m = choose|m: int| 0 <= m < before.len() && (#[trigger] before[m]).source@ == self.source_map@[l]@;
                            assert(after[m].source@ == self.source_map@[l]@);
                        }
                    }
                    Pushed::Renewed
                },
                _ => Pushed::Skipped,
            }
        } else {
            let ghost before = self.data.source_anime_maps@;
            self.data.push_new_map(name, file_type);
            proof {
                let after = self.data.source_anime_maps@;
                assert forall|l: int| 0 <= l < self.source_map@.len() implies recorded(
                    after,
                    (#[trigger] self.source_map@[l])@,
                ) by {
                    let m = choose|m: int| 0 <= m < before.len() && (#[trigger] before[m]).source@ == self.source_map@[l]@;
                    assert(after.drop_last()[m] == after[m]);
                    assert(after[m].source@ == self.source_map@[l]@);
                }
            }
            Pushed::New
        }
    }

    /// The kind of a source entry, from its name and type and, for a folder, the listing
    /// of that folder: a file whose name ends in ".parts" is a partial download; a folder
    /// that holds only folders is nested, with a record for each of them.
    pub fn get_map_file_type(&self, name: &str, is_file: bool, is_dir: bool, children: &Vec<Entry>) -> (r: FileType)
        ensures
            is_file ==> r == (if is_suffix(name@, ".parts"@) {
                FileType::Other
            } else {
                FileType::File
            }),
            !is_file && is_dir && (forall|c: int| 0 <= c < children@.len() ==> (#[trigger] children@[c]).is_dir)
                ==> r is Nesting && dir_records(children@, r->Nesting_0@),
            !is_file && is_dir && !(forall|c: int| 0 <= c < children@.len() ==> (#[trigger] children@[c]).is_dir)
                ==> r == FileType::Dir,
            !is_file && !is_dir ==> r == FileType::File,
    {
        if is_file {
            if ends_with(name, ".parts") {
                return FileType::Other;
            }
            return FileType::File;
        }
        if !is_dir {
            return FileType::File;
        }
        let mut maps: Vec<SourceAnimeMap> = Vec::new();
        let mut c: usize = 0;
        while c < children.len()
            invariant
                !is_file && is_dir,
                0 <= c <= children@.len(),
                forall|d: int| 0 <= d < c ==> (#[trigger] children@[d]).is_dir,
                dir_records(children@.take(c as int), maps@),
            decreases children@.len() - c,
        {
            if !children[c].is_dir {
                return FileType::Dir;
            }
            maps.push(bulid_anime_map(children[c].name.clone(), String::new(), FileType::Dir));
            proof {
                assert forall|d: int| 0 <= d < maps@.len() implies #[trigger] maps@[d].source@ == children@.take(c + 1)[d].name@ by {
                    if d < c {
                        assert(children@.take(c + 1)[d] == children@.take(c as int)[d]);
                    }
                }
            }
            c = c + 1;
        }
        assert(children@.take(c as int) =~= children@);
        FileType::Nesting(maps)
    }

    /// Matches every record that takes part and has no target yet, sets the targets it
    /// found, and gives the queue of records to copy with their targets.
    pub fn map_animes<S: Fn(&Vec<String>) -> Vec<Entry>, T: Fn(&Vec<String>) -> Vec<Entry>>(
        &mut self,
        list_source: &S,
        list_anime: &T,
    ) -> (r: Vec<(usize, usize, String)>)
        requires
            forall|p: &Vec<String>| list_source.requires((p,)),
            forall|p: &Vec<String>| list_anime.requires((p,)),
        ensures
            exists|reg: Seq<(String, Cache)>|
                walked(*list_source, old(self).data.source_anime_maps@, r@, reg, old(self).data.animes@),
            names_set(old(self).data.source_anime_maps@, final(self).data.source_anime_maps@, r@),
            final(self).data.animes == old(self).data.animes,
            final(self).source_map == old(self).source_map,
            final(self).config == old(self).config,
    {
        let mut anime_cache = CacheMap::default();
        let queue = self.need_reflink_anime_indexes(&self.data.source_anime_maps, &mut anime_cache, list_source, list_anime);
        match queue {
            None => {
                let empty: Vec<(usize, usize, String)> = Vec::new();
                assert(empty@ =~= Seq::<(usize, usize, String)>::empty());
                proof {
                    let o = self.data.source_anime_maps@;
                    assert forall|i: int| 0 <= i < o.len() && o[i].file_type is Nesting implies
                        forall|j: int| 0 <= j < children(o[i]).len() ==> #[trigger] last_at(o, empty@, i, j) is None by {}
                }
                empty
            },
            Some(q) => {
                proof {
                    let o = self.data.source_anime_maps@;
                    assert forall|k: int| 0 <= k < q@.len() implies path_ok(o, (#[trigger] q@[k]).0 as int, q@[k].1 as int) by {
                        assert(item_ok(o, q@[k]));
                    }
                }
                self.data.set_anime_name(&q);
                q
            },
        }
    }
}

/// The stored records and the known target names.
pub struct RealData {
    pub source_anime_maps: Vec<SourceAnimeMap>,
    pub animes: Vec<String>,
}

impl Default for RealData {
    /// No records and no targets.
    fn default() -> (r: RealData)
        ensures
            r.source_anime_maps@.len() == 0,
            r.animes@.len() == 0,
    {
        RealData { source_anime_maps: Vec::new(), animes: Vec::new() }
    }
}

impl RealData {
    /// Adds a record for a newly seen source, not yet matched.
    pub fn push_new_map(&mut self, name: String, file_type: FileType)
        ensures
            final(self).animes == old(self).animes,
            final(self).source_anime_maps@.len() == old(self).source_anime_maps@.len() + 1,
            final(self).source_anime_maps@.drop_last() == old(self).source_anime_maps@,
            final(self).source_anime_maps@.last().source == name,
            final(self).source_anime_maps@.last().anime@.len() == 0,
            final(self).source_anime_maps@.last().active,
            final(self).source_anime_maps@.last().file_type == file_type,
    {
        let anime_map = bulid_anime_map(name, String::new(), file_type);
        self.source_anime_maps.push(anime_map);
        assert(self.source_anime_maps@.drop_last() =~= old(self).source_anime_maps@);
    }

    /// Refreshes the kind of the first record of a source seen before. The children of a
    /// nested kind take the record's target as their own.
    pub fn push_renew_map(&mut self, name: String, file_type: FileType)
        requires
            exists|k: int|
                0 <= k < old(self).source_anime_maps@.len()
                    && (#[trigger] old(self).source_anime_maps@[k]).source@ == name@,
        ensures
            final(self).animes == old(self).animes,
            exists|k: int|
                #![trigger first_source_at(old(self).source_anime_maps@, name@, k)]
                {
                    let o = old(self).source_anime_maps@;
                    let n = final(self).source_anime_maps@;
                    &&& first_source_at(o, name@, k)
                    &&& n.len() == o.len()
                    &&& forall|l: int| 0 <= l < o.len() && l != k ==> #[trigger] n[l] == o[l]
                    &&& n[k].source == o[k].source
                    &&& n[k].anime == o[k].anime
                    &&& n[k].active == o[k].active
                    &&& match file_type {
                        FileType::Nesting(given) => {
                            &&& n[k].file_type is Nesting
                            &&& children(n[k]).len() == given@.len()
                            &&& forall|c: int|
                                0 <= c < given@.len() ==> {
                                    let m = #[trigger] children(n[k])[c];
                                    &&& m.source == given@[c].source
                                    &&& m.anime@ == o[k].anime@
                                    &&& m.active == given@[c].active
                                    &&& m.file_type == given@[c].file_type
                                }
                        },
                        _ => n[k].file_type == file_type,
                    }
                },
    {
        let mut k: usize = 0;
        while k < self.source_anime_maps.len()
            invariant
                *self == *old(self),
                0 <= k <= self.source_anime_maps@.len(),
                exists|l: int|
                    k <= l < self.source_anime_maps@.len()
                        && (#[trigger] self.source_anime_maps@[l]).source@ == name@,
                forall|l: int| 0 <= l < k ==> (#[trigger] self.source_anime_maps@[l]).source@ != name@,
            ensures
                first_source_at(self.source_anime_maps@, name@, k as int),
            decreases self.source_anime_maps@.len() - k,
        {
            if str_eq(self.source_anime_maps[k].source.as_str(), name.as_str()) {
                break;
            }
            k = k + 1;
        }
        let ghost given = file_type;
        let parent_anime = self.source_anime_maps[k].anime.clone();
        let file_type = match file_type {
            FileType::Nesting(mut maps) => {
                let mut c: usize = 0;
                while c < maps.len()
                    invariant
                        given is Nesting,
                        maps@.len() == given->Nesting_0@.len(),
                        0 <= c <= maps@.len(),
                        forall|d: int|
                            0 <= d < maps@.len() ==> {
                                let m = #[trigger] maps@[d];
                                let g = given->Nesting_0@[d];
                                &&& m.source == g.source
                                &&& m.active == g.active
                                &&& m.file_type == g.file_type
                                &&& (d < c ==> m.anime@ == parent_anime@)
                                &&& (d >= c ==> m.anime == g.anime)
                            },
                    decreases maps@.len() - c,
                {
                    let m = &mut maps[c];
                    m.anime = parent_anime.clone();
                    c = c + 1;
                }
                FileType::Nesting(maps)
            },
            other => other,
        };
        let rec = &mut self.source_anime_maps[k];
        rec.file_type = file_type;
    }

    /// Adds a target name unless it is already known.
    pub fn push_anime(&mut self, name: String)
        ensures
            final(self).source_anime_maps == old(self).source_anime_maps,
            (exists|k: int| 0 <= k < old(self).animes@.len() && (#[trigger] old(self).animes@[k])@ == name@)
                ==> final(self).animes@ == old(self).animes@,
            !(exists|k: int| 0 <= k < old(self).animes@.len() && (#[trigger] old(self).animes@[k])@ == name@)
                ==> final(self).animes@ == old(self).animes@.push(name),
    {
        let mut k: usize = 0;
        while k < self.animes.len()
            invariant
                *self == *old(self),
                0 <= k <= self.animes@.len(),
                forall|l: int| 0 <= l < k ==> (#[trigger] self.animes@[l])@ != name@,
            decreases self.animes@.len() - k,
        {
            if str_eq(self.animes[k].as_str(), name.as_str()) {
                return;
            }
            k = k + 1;
        }
        self.animes.push(name);
    }

    /// Sets the target of the record at path `i`: child `i.1` of a nested record `i.0`,
    /// or record `i.0` itself.
    fn set_anime_at(&mut self, i: (usize, usize), name: &String)
        requires
            path_ok(old(self).source_anime_maps@, i.0 as int, i.1 as int),
        ensures
            final(self).animes == old(self).animes,
            names_set(old(self).source_anime_maps@, final(self).source_anime_maps@, seq![(i.0, i.1, *name)]),
    {
        let ghost o = self.source_anime_maps@;
        let ghost q = seq![(i.0, i.1, *name)];
        let rec = &mut self.source_anime_maps[i.0];
        match &mut rec.file_type {
            FileType::Nesting(maps) => {
                let c = &mut maps[i.1];
                c.anime = name.clone();
            },
            _ => {
                rec.anime = name.clone();
            },
        }
        proof {
            let n = self.source_anime_maps@;
            assert forall|a: int, b: int| true implies last_at(o, q, a, b) == (if addresses(o, q[0], a, b) {
                Some(q[0].2)
            } else {
                None::<String>
            }) by {
                reveal_with_fuel(last_at, 2);
                assert(q.drop_last() =~= Seq::<(usize, usize, String)>::empty());
                assert(q.last() == q[0]);
            }
            assert(names_set(o, n, q));
        }
    }

    /// Sets the active flag of the record at path `i`: child `i.1` of a nested record
    /// `i.0`, or record `i.0` itself.
    fn set_active_at(&mut self, i: (usize, usize), flag: bool)
        requires
            path_ok(old(self).source_anime_maps@, i.0 as int, i.1 as int),
        ensures
            final(self).animes == old(self).animes,
            flags_set(old(self).source_anime_maps@, final(self).source_anime_maps@, seq![(i.0, i.1, flag)]),
    {
        let ghost o = self.source_anime_maps@;
        let ghost q = seq![(i.0, i.1, flag)];
        let rec = &mut self.source_anime_maps[i.0];
        match &mut rec.file_type {
            FileType::Nesting(maps) => {
                let c = &mut maps[i.1];
                c.active = flag;
            },
            _ => {
                rec.active = flag;
            },
        }
        proof {
            let n = self.source_anime_maps@;
            assert forall|a: int, b: int| true implies last_at(o, q, a, b) == (if addresses(o, q[0], a, b) {
                Some(q[0].2)
            } else {
                None::<bool>
            }) by {
                reveal_with_fuel(last_at, 2);
                assert(q.drop_last() =~= Seq::<(usize, usize, bool)>::empty());
                assert(q.last() == q[0]);
            }
            assert(flags_set(o, n, q));
        }
    }

    /// Sets the target of each queued record, in queue order.
    pub fn set_anime_name(&mut self, reflink_queue: &Vec<(usize, usize, String)>)
        requires
            paths_ok(old(self).source_anime_maps@, reflink_queue@),
        ensures
            final(self).animes == old(self).animes,
            names_set(old(self).source_anime_maps@, final(self).source_anime_maps@, reflink_queue@),
    {
        let ghost o = self.source_anime_maps@;
        let mut k: usize = 0;
        assert(names_set(o, o, reflink_queue@.take(0)));
        while k < reflink_queue.len()
            invariant
                o == old(self).source_anime_maps@,
                self.animes == old(self).animes,
                paths_ok(o, reflink_queue@),
                0 <= k <= reflink_queue@.len(),
                names_set(o, self.source_anime_maps@, reflink_queue@.take(k as int)),
            decreases reflink_queue@.len() - k,
        {
            let item = &reflink_queue[k];
            let ghost cur = self.source_anime_maps@;
            proof {
                let a = item.0 as int;
                assert(path_ok(o, a, item.1 as int));
                assert(cur[a].file_type is Nesting == o[a].file_type is Nesting);
            }
            self.set_anime_at((item.0, item.1), &item.2);
            proof {
                assert(seq![(item.0, item.1, item.2)] == seq![reflink_queue@[k as int]]);
                lemma_names_compose(o, cur, self.source_anime_maps@, reflink_queue@, k as int);
            }
            k = k + 1;
        }
        assert(reflink_queue@.take(k as int) =~= reflink_queue@);
    }

    /// Sets the active flag of each queued record, in queue order.
    pub fn set_map_active(&mut self, successed_index: &Vec<(usize, usize, bool)>)
        requires
            paths_ok(old(self).source_anime_maps@, successed_index@),
        ensures
            final(self).animes == old(self).animes,
            flags_set(old(self).source_anime_maps@, final(self).source_anime_maps@, successed_index@),
    {
        let ghost o = self.source_anime_maps@;
        let mut k: usize = 0;
        assert(flags_set(o, o, successed_index@.take(0)));
        while k < successed_index.len()
            invariant
                o == old(self).source_anime_maps@,
                self.animes == old(self).animes,
                paths_ok(o, successed_index@),
                0 <= k <= successed_index@.len(),
                flags_set(o, self.source_anime_maps@, successed_index@.take(k as int)),
            decreases successed_index@.len() - k,
        {
            let item = &successed_index[k];
            let ghost cur = self.source_anime_maps@;
            proof {
                let a = item.0 as int;
                assert(path_ok(o, a, item.1 as int));
                assert(cur[a].file_type is Nesting == o[a].file_type is Nesting);
            }
            self.set_active_at((item.0, item.1), item.2);
            proof {
                assert(seq![(item.0, item.1, item.2)] == seq![successed_index@[k as int]]);
                lemma_flags_compose(o, cur, self.source_anime_maps@, successed_index@, k as int);
            }
            k = k + 1;
        }
        assert(successed_index@.take(k as int) =~= successed_index@);
    }

    /// The record at path `i`: child `i.1` of a nested record `i.0`, or record `i.0` itself.
    pub fn get_map_at_indexes(&self, i: (usize, usize)) -> (r: &SourceAnimeMap)
        requires
            path_ok(self.source_anime_maps@, i.0 as int, i.1 as int),
        ensures
            *r == rec_at(self.source_anime_maps@, i.0 as int, i.1 as int),
    {
        match &self.source_anime_maps[i.0].file_type {
            FileType::Nesting(maps) => &maps[i.1],
            _ => &self.source_anime_maps[i.0],
        }
    }
}

} // verus!
