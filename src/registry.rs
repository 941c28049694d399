//! The cache registry: the content cache of each target folder, built once per pass by
//! walking the folder through a listing.
use vstd::prelude::*;
use vstd::string::StringSliceAdditionalSpecFns;

use crate::cache::{find_key, key_in, put_into, unique_keys, Cache};
use crate::data::Data;
use crate::signal::{filter_file_dir, signal_names, Entry};

verus! {

/// Longest path, in bytes, that the operating system opens. A folder deeper than this
/// below its target cannot be listed, so it stays an empty branch, as an unreadable
/// folder does.
pub const PATH_MAX: usize = 4096;

/// Every cache of a registry is a well-formed branch, and no two share a target.
pub open spec fn registry_ok(s: Seq<(String, Cache)>) -> bool {
    &&& unique_keys(s)
    &&& forall|i: int| 0 <= i < s.len() ==> (#[trigger] s[i]).1 is Branch && s[i].1.wf()
}

/// `new` is the registry `old` after the cache of `anime` was asked for: unchanged where
/// it was built already, else grown by that one cache at the end.
pub open spec fn fetched(old: Seq<(String, Cache)>, new: Seq<(String, Cache)>, anime: Seq<char>) -> bool {
    if key_in(old, anime) {
        new == old
    } else {
        &&& new.len() == old.len() + 1
        &&& new.drop_last() == old
        &&& new.last().0@ == anime
    }
}

/// Some name of `names` is `k`.
pub open spec fn named(names: Seq<Seq<char>>, k: Seq<char>) -> bool {
    exists|i: int| 0 <= i < names.len() && names[i] == k
}

/// One more entry adds its name to the names that count, where it counts itself.
proof fn lemma_names_step(s: Seq<Entry>, i: int)
    requires
        0 <= i < s.len(),
    ensures
        forall|k: Seq<char>|
            #![trigger named(signal_names(s.take(i + 1)), k)]
            named(signal_names(s.take(i + 1)), k) <==> (named(signal_names(s.take(i)), k) || (
            crate::signal::signal_kind(s[i]) is Some && k == s[i].name@)),
{
    let t = s.take(i + 1);
    assert(t.drop_last() =~= s.take(i));
    assert(t.last() == s[i]);
    let a = signal_names(s.take(i));
    if crate::signal::signal_kind(s[i]) is Some {
        let b = a.push(s[i].name@);
        assert(signal_names(t) == b);
        assert forall|k: Seq<char>| named(b, k) <==> (named(a, k) || k == s[i].name@) by {
            if named(a, k) {
                let j = choose|j: int| 0 <= j < a.len() && a[j] == k;
                assert(b[j] == k);
            }
            if named(b, k) {
                let j = choose|j: int| 0 <= j < b.len() && b[j] == k;
                if j < a.len() {
                    assert(a[j] == k);
                }
            }
            if k == s[i].name@ {
                assert(b[a.len() as int] == k);
            }
        }
    } else {
        assert(signal_names(t) == a);
    }
}

/// The length in bytes of a name, as the operating system counts it in a path.
pub open spec fn byte_len(name: Seq<char>) -> int {
    (vstd::utf8::encode_utf8(name).len() as usize) as int
}

/// How the last entry named `name` that counts in `e` counts: as a name only
/// (`Some(false)`), as a folder to walk (`Some(true)`); `None` where no such entry is.
pub open spec fn last_kind(e: Seq<Entry>, name: Seq<char>) -> Option<bool>
    decreases e.len(),
{
    if e.len() == 0 {
        None
    } else if crate::signal::signal_kind(e.last()) is Some && e.last().name@ == name {
        crate::signal::signal_kind(e.last())
    } else {
        last_kind(e.drop_last(), name)
    }
}

/// `p` is the path `dir`.
pub open spec fn path_is(p: Vec<String>, dir: Seq<Seq<char>>) -> bool {
    &&& p@.len() == dir.len()
    &&& forall|k: int| 0 <= k < dir.len() ==> (#[trigger] p@[k])@ == dir[k]
}

/// Entry `en` of a branch built from listing `e` of folder `dir`, whose path has `used`
/// bytes: a name only binds a leaf; a folder to walk binds the branch built from its own
/// listing, or an empty branch where its path would be longer than `PATH_MAX`.
pub open spec fn entry_built<F: Fn(&Vec<String>) -> Vec<Entry>>(
    list: F,
    dir: Seq<Seq<char>>,
    used: int,
    e: Seq<Entry>,
    en: (String, Cache),
) -> bool
    decreases PATH_MAX - used, 0nat,
{
    match last_kind(e, en.0@) {
        Some(false) => en.1 is Leaf,
        Some(true) => if used + byte_len(en.0@) < PATH_MAX {
            built_from(list, dir.push(en.0@), used + byte_len(en.0@) + 1, en.1)
        } else {
            en.1 is Branch && en.1.entries().len() == 0
        },
        None => false,
    }
}

/// `c` is the cache built by walking folder `dir`, whose path has `used` bytes: a branch
/// whose keys are the names that count in a listing of `dir` that `list` may return, each
/// bound as `entry_built` says.
pub open spec fn built_from<F: Fn(&Vec<String>) -> Vec<Entry>>(
    list: F,
    dir: Seq<Seq<char>>,
    used: int,
    c: Cache,
) -> bool
    decreases PATH_MAX - used, 1nat,
{
    &&& c is Branch
    &&& exists|p: Vec<String>, e: Vec<Entry>|
        {
            &&& path_is(p, dir)
            &&& list.ensures((&p,), e)
            &&& forall|k: Seq<char>| #![trigger key_in(c.entries(), k)] key_in(c.entries(), k) <==> named(signal_names(e@), k)
            &&& forall|i: int|
                0 <= i < c.entries().len() ==> used <= PATH_MAX && entry_built(list, dir, used, e@, #[trigger] c.entries()[i])
        }
}

/// Binding a key adds exactly that key.
proof fn lemma_put_keys(o: Seq<(String, Cache)>, n: Seq<(String, Cache)>, key: Seq<char>, value: Cache)
    requires
        put_into(o, n, key, value),
    ensures
        forall|k: Seq<char>| #![trigger key_in(n, k)] key_in(n, k) <==> (key_in(o, k) || k == key),
{
    if key_in(o, key) {
        let i = choose|i: int| 0 <= i < o.len() && (#[trigger] o[i]).0@ == key && n == o.update(i, (o[i].0, value));
        assert forall|k: Seq<char>| key_in(n, k) <==> (key_in(o, k) || k == key) by {
            if key_in(n, k) {
                let j = choose|j: int| 0 <= j < n.len() && (#[trigger] n[j]).0@ == k;
                assert(o[j].0@ == k);
            }
            if key_in(o, k) {
                let j = choose|j: int| 0 <= j < o.len() && (#[trigger] o[j]).0@ == k;
                assert(n[j].0@ == k);
            }
        }
    } else {
        assert forall|k: Seq<char>| key_in(n, k) <==> (key_in(o, k) || k == key) by {
            if key_in(n, k) {
                let j = choose|j: int| 0 <= j < n.len() && (#[trigger] n[j]).0@ == k;
                if j < o.len() {
                    assert(n.drop_last()[j] == n[j]);
                    assert(o[j].0@ == k);
                }
            }
            if key_in(o, k) {
                let j = choose|j: int| 0 <= j < o.len() && (#[trigger] o[j]).0@ == k;
                assert(n.drop_last()[j] == n[j]);
                assert(n[j].0@ == k);
            }
            if k == key {
                assert(n[n.len() - 1] == n.last());
            }
        }
    }
}

/// The caches built in one matching pass, in the order their targets were first asked for.
#[derive(Debug, PartialEq)]
pub struct CacheMap {
    pub caches: Vec<(String, Cache)>,
}

impl Default for CacheMap {
    /// No caches.
    fn default() -> (r: CacheMap)
        ensures
            r.caches@.len() == 0,
    {
        CacheMap { caches: Vec::new() }
    }
}

impl CacheMap {
    /// Whether the cache of `anime` is built.
    pub fn contains_key(&self, anime: &str) -> (r: bool)
        ensures
            r == key_in(self.caches@, anime@),
    {
        find_key(&self.caches, anime).is_some()
    }
}

/// Binding a name that counts keeps every entry built: the bound one as its own entry
/// says, the others as before.
proof fn lemma_put_built<F: Fn(&Vec<String>) -> Vec<Entry>>(
    list: F,
    dv: Seq<Seq<char>>,
    used: int,
    e0: Seq<Entry>,
    e1: Seq<Entry>,
    o: Seq<(String, Cache)>,
    n: Seq<(String, Cache)>,
    key: Seq<char>,
    value: Cache,
)
    requires
        put_into(o, n, key, value),
        unique_keys(o),
        forall|idx: int| 0 <= idx < o.len() ==> entry_built(list, dv, used, e0, #[trigger] o[idx]),
        forall|m: Seq<char>| m != key ==> #[trigger] last_kind(e1, m) == last_kind(e0, m),
        exists|s: String| s@ == key && entry_built(list, dv, used, e1, (s, value)),
    ensures
        forall|idx: int| 0 <= idx < n.len() ==> entry_built(list, dv, used, e1, #[trigger] n[idx]),
{
    let s = choose|s: String| s@ == key && entry_built(list, dv, used, e1, (s, value));
    assert forall|idx: int| 0 <= idx < n.len() implies entry_built(list, dv, used, e1, #[trigger] n[idx]) by {
        if key_in(o, key) {
            let i = choose|i: int| 0 <= i < o.len() && (#[trigger] o[i]).0@ == key && n == o.update(i, (o[i].0, value));
            if idx != i {
                assert(n[idx] == o[idx]);
                assert(o[idx].0@ != key);
                assert(entry_built(list, dv, used, e0, o[idx]));
                assert(last_kind(e1, o[idx].0@) == last_kind(e0, o[idx].0@));
            } else {
                assert(n[idx] == (o[i].0, value));
            }
        } else {
            if idx < o.len() {
                assert(n.drop_last()[idx] == n[idx]);
                assert(entry_built(list, dv, used, e0, o[idx]));
                assert(o[idx].0@ != key) by {
                    if o[idx].0@ == key {
                        assert(key_in(o, key));
                    }
                }
                assert(last_kind(e1, o[idx].0@) == last_kind(e0, o[idx].0@));
            } else {
                assert(n[idx] == n.last());
            }
        }
    }
}

/// The length of a name in bytes.
fn name_bytes(name: &String) -> (r: usize)
    ensures
        r == byte_len(name@),
{
    let s = name.as_str();
    assert(s.spec_bytes() == vstd::utf8::encode_utf8(name@));
    s.len()
}

/// Which entry counts at position `i` is the last one so far with its name.
proof fn lemma_last_kind_step(e: Seq<Entry>, i: int, name: Seq<char>)
    requires
        0 <= i < e.len(),
    ensures
        last_kind(e.take(i + 1), name) == if crate::signal::signal_kind(e[i]) is Some && e[i].name@ == name {
            crate::signal::signal_kind(e[i])
        } else {
            last_kind(e.take(i), name)
        },
{
    assert(e.take(i + 1).drop_last() =~= e.take(i));
    assert(e.take(i + 1).last() == e[i]);
}

/// Fills an empty branch from a listing of folder `dir`, then walks each significant
/// folder below it. `used` is the length of `dir` as a path, in bytes.
fn fetch_cache<F: Fn(&Vec<String>) -> Vec<Entry>>(cache: &mut Cache, dir: &Vec<String>, used: usize, list: &F)
    requires
        *old(cache) is Branch,
        old(cache).entries().len() == 0,
        used <= PATH_MAX,
        forall|p: &Vec<String>| list.requires((p,)),
    ensures
        *final(cache) is Branch,
        final(cache).wf(),
        forall|dv: Seq<Seq<char>>| path_is(*dir, dv) ==> built_from(*list, dv, used as int, *final(cache)),
    decreases PATH_MAX - used,
{
    let ghost dv = dir@.map_values(|x: String| x@);
    let ghost empty = *cache;
    let entries = list(dir);
    let mut i: usize = 0;
    assert forall|k: Seq<char>| #![trigger key_in(cache.entries(), k)] key_in(cache.entries(), k) <==> named(
        signal_names(entries@.take(0)),
        k,
    ) by {
        assert(signal_names(entries@.take(0)) =~= Seq::<Seq<char>>::empty());
    }
    while i < entries.len()
        invariant
            forall|p: &Vec<String>| list.requires((p,)),
            path_is(*dir, dv),
            used <= PATH_MAX,
            0 <= i <= entries@.len(),
            *cache is Branch,
            cache.wf(),
            forall|k: Seq<char>|
                #![trigger key_in(cache.entries(), k)]
                key_in(cache.entries(), k) <==> named(signal_names(entries@.take(i as int)), k),
            forall|idx: int|
                0 <= idx < cache.entries().len() ==> entry_built(
                    *list,
                    dv,
                    used as int,
                    entries@.take(i as int),
                    #[trigger] cache.entries()[idx],
                ),
        decreases entries@.len() - i,
    {
        let ghost before = *cache;
        proof {
            lemma_names_step(entries@, i as int);
            assert forall|m: Seq<char>| true implies #[trigger] last_kind(entries@.take(i + 1), m) == if crate::signal::signal_kind(
                entries@[i as int],
            ) is Some && entries@[i as int].name@ == m {
                crate::signal::signal_kind(entries@[i as int])
            } else {
                last_kind(entries@.take(i as int), m)
            } by {
                lemma_last_kind_step(entries@, i as int, m);
            }
        }
        match filter_file_dir(&entries[i]) {
            None => {},
            Some((name, false)) => {
                cache.insert_none(name.as_str());
                proof {
                    lemma_put_keys(before.entries(), cache.entries(), name@, Cache::Leaf);
                    lemma_put_built(*list, dv, used as int, entries@.take(i as int), entries@.take(i + 1), before.entries(), cache.entries(), name@, Cache::Leaf);
                }
            },
            Some((name, true)) => {
                let name_len = name_bytes(&name);
                match cache.insert_default(name.as_str()) {
                    Some(sub) => {
                        let ghost fits = name_len < PATH_MAX - used;
                        if name_len < PATH_MAX - used {
                            let mut path = dir.clone();
                            path.push(name.clone());
                            proof {
                                assert forall|k: int| 0 <= k < dv.len() implies (#[trigger] path@[k])@ == dv[k] by {
                                    assert(path@[k] == dir@[k]);
                                }
                                assert(path_is(path, dv.push(name@)));
                            }
                            fetch_cache(sub, &path, used + name_len + 1, list);
                            assert(built_from(*list, dv.push(name@), used + name_len + 1, *sub));
                        }
                        proof {
                            assert(last_kind(entries@.take(i + 1), name@) == Some(true));
                            assert(entry_built(*list, dv, used as int, entries@.take(i + 1), (name, *final(sub))));
                            lemma_put_keys(before.entries(), after_borrow(*cache).entries(), name@, *final(sub));
                            lemma_put_built(*list, dv, used as int, entries@.take(i as int), entries@.take(i + 1), before.entries(), after_borrow(*cache).entries(), name@, *final(sub));
                        }
                    },
                    None => {},
                }
            },
        }
        i = i + 1;
    }
    assert(entries@.take(entries@.len() as int) =~= entries@);
    proof {
        assert forall|dv2: Seq<Seq<char>>| path_is(*dir, dv2) implies built_from(*list, dv2, used as int, *cache) by {
            assert(dv2 =~= dv);
            assert(path_is(*dir, dv) && list.ensures((dir,), entries));
        }
    }
}

impl Data {
    /// Position of the cache of `anime`, built first where it is not built yet.
    pub(crate) fn build_cache<F: Fn(&Vec<String>) -> Vec<Entry>>(
        &self,
        anime: &str,
        anime_cache: &mut CacheMap,
        list: &F,
    ) -> (r: usize)
        requires
            registry_ok(old(anime_cache).caches@),
            forall|p: &Vec<String>| list.requires((p,)),
        ensures
            registry_ok(final(anime_cache).caches@),
            fetched(old(anime_cache).caches@, final(anime_cache).caches@, anime@),
            r < final(anime_cache).caches@.len(),
            final(anime_cache).caches@[r as int].0@ == anime@,
            !key_in(old(anime_cache).caches@, anime@) && anime.len() <= PATH_MAX ==> built_from(
                *list,
                seq![anime@],
                anime.len() as int,
                final(anime_cache).caches@[r as int].1,
            ),
    {
        match find_key(&anime_cache.caches, anime) {
            Some(i) => i,
            None => {
                let mut cache = Cache::Branch(Vec::new());
                let used = anime.len();
                let mut dir: Vec<String> = Vec::new();
                dir.push(anime.to_owned());
                if used <= PATH_MAX {
                    fetch_cache(&mut cache, &dir, used, list);
                    proof {
                        assert(path_is(dir, seq![anime@]));
                    }
                }
                let ghost before = anime_cache.caches@;
                anime_cache.caches.push((anime.to_owned(), cache));
                let n = anime_cache.caches.len() - 1;
                proof {
                    assert(anime_cache.caches@.drop_last() =~= before);
                    assert(anime_cache.caches@[n as int] == anime_cache.caches@.last());
                    assert forall|a: int, b: int|
                        0 <= a < b < anime_cache.caches@.len() implies anime_cache.caches@[a].0@
                        != anime_cache.caches@[b].0@ by {
                        if b == n {
                            assert(anime_cache.caches@[a] == before[a]);
                        } else {
                            assert(anime_cache.caches@[a] == before[a]);
                            assert(anime_cache.caches@[b] == before[b]);
                        }
                    }
                    assert forall|a: int| 0 <= a < anime_cache.caches@.len() implies (
                    #[trigger] anime_cache.caches@[a]).1 is Branch && anime_cache.caches@[a].1.wf() by {
                        if a < n {
                            assert(anime_cache.caches@[a] == before[a]);
                        }
                    }
                }
                n
            },
        }
    }

    /// Gives the cache of `anime`, building it first where it is not built yet. A cache
    /// once built is handed out as it is, with no listing.
    pub fn fetch_anime_cache<'a, F: Fn(&Vec<String>) -> Vec<Entry>>(
        &self,
        anime: &str,
        anime_cache: &'a mut CacheMap,
        list: &F,
    ) -> (r: &'a Cache)
        requires
            registry_ok(old(anime_cache).caches@),
            forall|p: &Vec<String>| list.requires((p,)),
        ensures
            registry_ok(final(anime_cache).caches@),
            fetched(old(anime_cache).caches@, final(anime_cache).caches@, anime@),
            exists|i: int|
                0 <= i < final(anime_cache).caches@.len() && (#[trigger] final(anime_cache).caches@[i]).0@
                    == anime@ && *r == final(anime_cache).caches@[i].1,
            !key_in(old(anime_cache).caches@, anime@) && anime.len() <= PATH_MAX ==> built_from(
                *list,
                seq![anime@],
                anime.len() as int,
                *r,
            ),
    {
        let i = self.build_cache(anime, anime_cache, list);
        &anime_cache.caches[i].1
    }
}

/// Asking twice for the cache of one target builds it at most once: the second request
/// finds it built and leaves the registry as it was.
pub proof fn lemma_fetch_twice(
    first: Seq<(String, Cache)>,
    between: Seq<(String, Cache)>,
    after: Seq<(String, Cache)>,
    anime: Seq<char>,
)
    requires
        fetched(first, between, anime),
        fetched(between, after, anime),
    ensures
        key_in(between, anime),
        after == between,
{
    if !key_in(first, anime) {
        assert(between[between.len() - 1] == between.last());
    }
}

} // verus!
