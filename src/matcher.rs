//! The search for the target folder that a source folder belongs to.
use vstd::prelude::*;

use crate::cache::{key_in, Cache};
use crate::data::Data;
use crate::registry::{named, registry_ok, CacheMap};
use crate::signal::{signal_names, signature, Entry};

verus! {

/// The tree holds some name of `names`.
pub open spec fn holds_named(c: Cache, names: Seq<Seq<char>>) -> bool {
    exists|j: int| 0 <= j < names.len() && c.holds(#[trigger] names[j])
}

/// The views of some strings.
pub open spec fn views(s: Seq<String>) -> Seq<Seq<char>> {
    s.map_values(|x: String| x@)
}

/// Cache `i` is the first of `reg[from..to)` that holds `name`.
pub open spec fn first_with_name(reg: Seq<(String, Cache)>, from: int, to: int, name: Seq<char>, i: int) -> bool {
    &&& from <= i < to
    &&& reg[i].1.holds(name)
    &&& forall|j: int| from <= j < i ==> !(#[trigger] reg[j]).1.holds(name)
}

/// No cache of `reg[from..to)` holds `name`.
pub open spec fn none_with_name(reg: Seq<(String, Cache)>, from: int, to: int, name: Seq<char>) -> bool {
    forall|j: int| from <= j < to ==> !(#[trigger] reg[j]).1.holds(name)
}

/// Cache `i` is the first of `reg[from..to)` that holds a name of `names`.
pub open spec fn first_with_names(
    reg: Seq<(String, Cache)>,
    from: int,
    to: int,
    names: Seq<Seq<char>>,
    i: int,
) -> bool {
    &&& from <= i < to
    &&& holds_named(reg[i].1, names)
    &&& forall|j: int| from <= j < i ==> !holds_named((#[trigger] reg[j]).1, names)
}

/// No cache of `reg[from..to)` holds a name of `names`.
pub open spec fn none_with_names(reg: Seq<(String, Cache)>, from: int, to: int, names: Seq<Seq<char>>) -> bool {
    forall|j: int| from <= j < to ==> !holds_named((#[trigger] reg[j]).1, names)
}

/// The targets of `animes[..m]` that the search builds, in list order: those not built in
/// `old` and not met before.
pub open spec fn pending(old: Seq<(String, Cache)>, animes: Seq<String>, m: int) -> Seq<Seq<char>>
    decreases m,
{
    if m <= 0 {
        Seq::empty()
    } else {
        let p = pending(old, animes, m - 1);
        let a = animes[m - 1]@;
        if key_in(old, a) || p.contains(a) {
            p
        } else {
            p.push(a)
        }
    }
}

/// The targets of the caches of `reg` from position `from` on, in order.
pub open spec fn built_keys(reg: Seq<(String, Cache)>, from: int) -> Seq<Seq<char>> {
    reg.skip(from).map_values(|e: (String, Cache)| e.0@)
}

/// The search built, in `new` after `old`, the caches of the pending targets of some
/// prefix of the target list, in list order.
pub open spec fn built_in_order(old: Seq<(String, Cache)>, new: Seq<(String, Cache)>, animes: Seq<String>) -> bool {
    exists|m: int| 0 <= m <= animes.len() && built_keys(new, old.len() as int) == #[trigger] pending(old, animes, m)
}

/// A registry that extends `old` holds a key where `old` does or where it was built after.
proof fn lemma_key_split(old: Seq<(String, Cache)>, reg: Seq<(String, Cache)>, a: Seq<char>)
    requires
        old.len() <= reg.len(),
        reg.take(old.len() as int) == old,
    ensures
        key_in(reg, a) <==> (key_in(old, a) || built_keys(reg, old.len() as int).contains(a)),
{
    let n = old.len() as int;
    let b = built_keys(reg, n);
    if key_in(reg, a) {
        let j = choose|j: int| 0 <= j < reg.len() && (#[trigger] reg[j]).0@ == a;
        if j < n {
            assert(reg.take(n)[j] == reg[j]);
            assert(old[j].0@ == a);
        } else {
            assert(b[j - n] == a);
        }
    }
    if key_in(old, a) {
        let j = choose|j: int| 0 <= j < old.len() && (#[trigger] old[j]).0@ == a;
        assert(reg.take(n)[j] == reg[j]);
    }
    if b.contains(a) {
        let j = choose|j: int| 0 <= j < b.len() && b[j] == a;
        assert(reg[n + j].0@ == a);
    }
}

/// What the search for a source's target returns once the source's own name was found in
/// none of the caches built before it (`reg[..n]`), where `names` is the signature of the
/// source and `reg` the registry after the search. In turn: the first earlier cache that
/// holds a name of the signature, with no cache built; the first cache built by the search
/// that holds the source's own name; the first cache of all that holds a name of the
/// signature; nothing, once the cache of every target is built.
pub open spec fn later_outcome(
    reg: Seq<(String, Cache)>,
    n: int,
    source: Seq<char>,
    names: Seq<Seq<char>>,
    animes: Seq<String>,
    r: Option<String>,
) -> bool {
    &&& forall|i: int|
        first_with_names(reg, 0, n, names, i) ==> r is Some && r.unwrap()@ == reg[i].0@ && reg.len() == n
    &&& none_with_names(reg, 0, n, names) ==> {
        &&& forall|i: int|
            first_with_name(reg, n, reg.len() as int, source, i) ==> r is Some && r.unwrap()@ == reg[i].0@
                && i == reg.len() - 1
        &&& none_with_name(reg, n, reg.len() as int, source) ==> forall|t: int|
            0 <= t < animes.len() ==> key_in(reg, (#[trigger] animes[t])@)
        &&& none_with_name(reg, n, reg.len() as int, source) ==> {
            &&& forall|i: int|
                first_with_names(reg, 0, reg.len() as int, names, i) ==> r is Some && r.unwrap()@
                    == reg[i].0@
            &&& none_with_names(reg, 0, reg.len() as int, names) ==> r is None && forall|t: int|
                0 <= t < animes.len() ==> key_in(reg, (#[trigger] animes[t])@)
        }
    }
}

/// What the search for a source's target returns: the first cache built before the search
/// (`old`) that holds the source's own name, with no cache built; else as `later_outcome`.
pub open spec fn search_outcome(
    old: Seq<(String, Cache)>,
    new: Seq<(String, Cache)>,
    source: Seq<char>,
    names: Seq<Seq<char>>,
    animes: Seq<String>,
    r: Option<String>,
) -> bool {
    &&& forall|i: int|
        first_with_name(old, 0, old.len() as int, source, i) ==> r is Some && r.unwrap()@ == old[i].0@
            && new == old
    &&& none_with_name(old, 0, old.len() as int, source) ==> later_outcome(
        new,
        old.len() as int,
        source,
        names,
        animes,
        r,
    )
}

/// The caches that `new` adds to `old` are all for targets of `animes`.
pub open spec fn grown_by_targets(old: Seq<(String, Cache)>, new: Seq<(String, Cache)>, animes: Seq<String>) -> bool {
    &&& old.len() <= new.len()
    &&& new.take(old.len() as int) == old
    &&& forall|k: int| old.len() <= k < new.len() ==> is_target(animes, (#[trigger] new[k]).0@)
}

/// `name` is one of the targets `animes`.
pub open spec fn is_target(animes: Seq<String>, name: Seq<char>) -> bool {
    exists|t: int| 0 <= t < animes.len() && (#[trigger] animes[t])@ == name
}

/// `e` is a listing that `list` may return for the source folder `source`.
pub open spec fn listing_of<S: Fn(&Vec<String>) -> Vec<Entry>>(list: S, source: Seq<char>, e: Vec<Entry>) -> bool {
    exists|p: Vec<String>| p@.len() == 1 && p@[0]@ == source && #[trigger] list.ensures((&p,), e)
}

/// The cache of target `t` in `reg` holds the source's own name, or a name of the
/// signature of a listing of the source.
pub open spec fn found_in<S: Fn(&Vec<String>) -> Vec<Entry>>(
    list: S,
    source: Seq<char>,
    reg: Seq<(String, Cache)>,
    t: Seq<char>,
) -> bool {
    exists|i: int|
        0 <= i < reg.len() && (#[trigger] reg[i]).0@ == t && (reg[i].1.holds(source) || exists|e: Vec<Entry>|
            listing_of(list, source, e) && holds_named(reg[i].1, signal_names(e@)))
}

/// Every target is built in `reg`, and for a listing of the source, no cache of `reg`
/// holds the source's own name nor a name of its signature.
pub open spec fn not_found<S: Fn(&Vec<String>) -> Vec<Entry>>(
    list: S,
    source: Seq<char>,
    reg: Seq<(String, Cache)>,
    animes: Seq<String>,
) -> bool {
    &&& forall|t: int| 0 <= t < animes.len() ==> key_in(reg, (#[trigger] animes[t])@)
    &&& none_with_name(reg, 0, reg.len() as int, source)
    &&& exists|e: Vec<Entry>| listing_of(list, source, e) && none_with_names(reg, 0, reg.len() as int, signal_names(e@))
}

/// What the search for source `source` settled on, whatever the listing gave.
pub open spec fn settled<S: Fn(&Vec<String>) -> Vec<Entry>>(
    list: S,
    source: Seq<char>,
    reg: Seq<(String, Cache)>,
    animes: Seq<String>,
    r: Option<String>,
) -> bool {
    match r {
        Some(t) => found_in(list, source, reg, t@),
        None => not_found(list, source, reg, animes),
    }
}

/// Holding a name of some strings is holding a name of their views.
proof fn lemma_views_held(c: Cache, sig: Seq<String>)
    ensures
        c.holds_any(sig) == holds_named(c, views(sig)),
{
    if c.holds_any(sig) {
        let j = choose|j: int| 0 <= j < sig.len() && c.holds((#[trigger] sig[j])@);
        assert(views(sig)[j] == sig[j]@);
    }
    if holds_named(c, views(sig)) {
        let j = choose|j: int| 0 <= j < views(sig).len() && c.holds(#[trigger] views(sig)[j]);
        assert(views(sig)[j] == sig[j]@);
    }
}

/// Position of the first cache of the registry that holds `name`.
fn first_by_name(reg: &CacheMap, name: &str) -> (r: Option<usize>)
    ensures
        match r {
            Some(i) => first_with_name(reg.caches@, 0, reg.caches@.len() as int, name@, i as int),
            None => none_with_name(reg.caches@, 0, reg.caches@.len() as int, name@),
        },
{
    let mut i: usize = 0;
    while i < reg.caches.len()
        invariant
            0 <= i <= reg.caches@.len(),
            none_with_name(reg.caches@, 0, i as int, name@),
        decreases reg.caches@.len() - i,
    {
        if reg.caches[i].1.contains(name) {
            return Some(i);
        }
        i = i + 1;
    }
    None
}

/// Position of the first cache of `reg[from..]` that holds a name of `sig`.
fn first_by_names(reg: &CacheMap, from: usize, sig: &Vec<String>) -> (r: Option<usize>)
    requires
        from <= reg.caches@.len(),
        none_with_names(reg.caches@, 0, from as int, views(sig@)),
    ensures
        match r {
            Some(i) => first_with_names(reg.caches@, 0, reg.caches@.len() as int, views(sig@), i as int),
            None => none_with_names(reg.caches@, 0, reg.caches@.len() as int, views(sig@)),
        },
{
    let mut i: usize = from;
    while i < reg.caches.len()
        invariant
            from <= i <= reg.caches@.len(),
            none_with_names(reg.caches@, 0, i as int, views(sig@)),
        decreases reg.caches@.len() - i,
    {
        proof {
            lemma_views_held(reg.caches@[i as int].1, sig@);
        }
        if reg.caches[i].1.contains_set(sig) {
            return Some(i);
        }
        i = i + 1;
    }
    None
}

impl Data {
    /// The search for a source's target once its own name was found in no cache built
    /// before (`sig` is its signature): earlier caches by the signature, then each target
    /// not built yet, built in turn and searched for the source's own name, then all caches
    /// by the signature.
    fn search_after_listing<T: Fn(&Vec<String>) -> Vec<Entry>>(
        &self,
        source: &str,
        sig: &Vec<String>,
        anime_cache: &mut CacheMap,
        list_anime: &T,
    ) -> (r: Option<String>)
        requires
            registry_ok(old(anime_cache).caches@),
            none_with_name(old(anime_cache).caches@, 0, old(anime_cache).caches@.len() as int, source@),
            forall|p: &Vec<String>| list_anime.requires((p,)),
        ensures
            registry_ok(final(anime_cache).caches@),
            grown_by_targets(old(anime_cache).caches@, final(anime_cache).caches@, self.data.animes@),
            built_in_order(old(anime_cache).caches@, final(anime_cache).caches@, self.data.animes@),
            later_outcome(
                final(anime_cache).caches@,
                old(anime_cache).caches@.len() as int,
                source@,
                views(sig@),
                self.data.animes@,
                r,
            ),
            r is Some ==> exists|i: int|
                0 <= i < final(anime_cache).caches@.len() && (#[trigger] final(anime_cache).caches@[i]).0@
                    == r.unwrap()@ && (final(anime_cache).caches@[i].1.holds(source@) || holds_named(
                    final(anime_cache).caches@[i].1,
                    views(sig@),
                )),
            r is None ==> none_with_name(
                final(anime_cache).caches@,
                0,
                final(anime_cache).caches@.len() as int,
                source@,
            ) && none_with_names(
                final(anime_cache).caches@,
                0,
                final(anime_cache).caches@.len() as int,
                views(sig@),
            ),
            r is None ==> forall|t: int|
                0 <= t < self.data.animes@.len() ==> key_in(
                    final(anime_cache).caches@,
                    (#[trigger] self.data.animes@[t])@,
                ),
    {
        let ghost old_reg = anime_cache.caches@;
        let n = anime_cache.caches.len();
        let names = Ghost(views(sig@));
        assert(anime_cache.caches@.take(n as int) =~= old_reg);
        // Earlier caches, by the signature.
        let mut i: usize = 0;
        while i < n
            invariant
                anime_cache.caches@ == old_reg,
                registry_ok(old_reg),
                old_reg.take(n as int) == old_reg,
                n == old_reg.len(),
                0 <= i <= n,
                none_with_names(old_reg, 0, i as int, names@),
                names@ == views(sig@),
            decreases n - i,
        {
            proof {
                lemma_views_held(old_reg[i as int].1, sig@);
            }
            if anime_cache.caches[i].1.contains_set(sig) {
                let r = anime_cache.caches[i].0.clone();
                assert(old_reg[i as int].0@ == r@);
                assert(key_in(old_reg, r@));
                assert(built_in_order(old_reg, old_reg, self.data.animes@)) by {
                    assert(built_keys(old_reg, n as int) =~= pending(old_reg, self.data.animes@, 0));
                }
                return Some(r);
            }
            i = i + 1;
        }
        // Targets not built yet, by the source's own name.
        assert(built_keys(anime_cache.caches@, n as int) =~= pending(old_reg, self.data.animes@, 0));
        let mut t: usize = 0;
        while t < self.data.animes.len()
            invariant
                old_reg == old(anime_cache).caches@,
                forall|p: &Vec<String>| list_anime.requires((p,)),
                registry_ok(anime_cache.caches@),
                grown_by_targets(old_reg, anime_cache.caches@, self.data.animes@),
                n == old_reg.len(),
                names@ == views(sig@),
                none_with_names(anime_cache.caches@, 0, n as int, names@),
                none_with_name(anime_cache.caches@, n as int, anime_cache.caches@.len() as int, source@),
                0 <= t <= self.data.animes@.len(),
                forall|u: int| 0 <= u < t ==> key_in(anime_cache.caches@, (#[trigger] self.data.animes@[u])@),
                built_keys(anime_cache.caches@, n as int) == pending(old_reg, self.data.animes@, t as int),
            decreases self.data.animes@.len() - t,
        {
            let anime = &self.data.animes[t];
            proof {
                lemma_key_split(old_reg, anime_cache.caches@, anime@);
                assert(self.data.animes@[t as int]@ == anime@);
            }
            if anime_cache.contains_key(anime.as_str()) {
                assert(pending(old_reg, self.data.animes@, t + 1) == pending(old_reg, self.data.animes@, t as int));
            }
            if !anime_cache.contains_key(anime.as_str()) {
                let ghost before = anime_cache.caches@;
                let k = self.build_cache(anime.as_str(), anime_cache, list_anime);
                let found = anime_cache.caches[k].1.contains(source);
                proof {
                    let reg = anime_cache.caches@;
                    assert(reg.drop_last() == before);
                    assert(built_keys(reg, n as int) =~= built_keys(before, n as int).push(anime@)) by {
                        assert forall|j: int| 0 <= j < built_keys(before, n as int).len() implies built_keys(reg, n as int)[j]
                            == built_keys(before, n as int)[j] by {
                            assert(reg.drop_last()[n + j] == reg[n + j]);
                        }
                        assert(reg[reg.len() - 1] == reg.last());
                    }
                    assert(pending(old_reg, self.data.animes@, t + 1) == pending(old_reg, self.data.animes@, t as int).push(anime@));
                }
                proof {
                    let reg = anime_cache.caches@;
                    assert(reg.drop_last() == before);
                    assert forall|j: int| 0 <= j < before.len() implies #[trigger] reg[j] == before[j] by {
                        assert(reg.drop_last()[j] == reg[j]);
                    }
                    let last = reg.len() - 1;
                    assert(reg[last] == reg.last());
                    assert(k == last);
                    assert(reg.take(n as int) =~= before.take(n as int));
                    assert forall|k: int| old_reg.len() <= k < reg.len() implies is_target(
                        self.data.animes@,
                        (#[trigger] reg[k]).0@,
                    ) by {
                        if k == last {
                            assert(self.data.animes@[t as int]@ == reg[k].0@);
                        } else {
                            assert(reg[k] == before[k]);
                        }
                    }
                    assert forall|u: int| 0 <= u <= t implies key_in(reg, (#[trigger] self.data.animes@[u])@) by {
                        if u == t {
                            assert(reg[last].0@ == self.data.animes@[u]@);
                        } else {
                            let j = choose|j: int| 0 <= j < before.len() && (#[trigger] before[j]).0@ == self.data.animes@[u]@;
                            assert(reg[j] == before[j]);
                        }
                    }
                }
                if found {
                    let r = anime.clone();
                    proof {
                        let reg = anime_cache.caches@;
                        let last = reg.len() - 1;
                        assert(grown_by_targets(old_reg, reg, self.data.animes@));
                        assert(none_with_names(reg, 0, n as int, names@));
                        assert(first_with_name(reg, n as int, reg.len() as int, source@, last));
                        assert(reg[last].0@ == r@);
                        assert forall|i: int| first_with_name(reg, n as int, reg.len() as int, source@, i) implies i == last by {
                            if i < last {
                                assert(reg[i] == before[i]);
                            }
                        }
                        assert(key_in(reg, r@));
                        assert(built_in_order(old_reg, reg, self.data.animes@)) by {
                            assert(built_keys(reg, n as int) == pending(old_reg, self.data.animes@, t + 1));
                        }
                    }
                    return Some(r);
                }
            }
            t = t + 1;
        }
        // All caches, by the signature.
        assert(built_in_order(old_reg, anime_cache.caches@, self.data.animes@)) by {
            assert(built_keys(anime_cache.caches@, n as int) == pending(old_reg, self.data.animes@, self.data.animes@.len() as int));
        }
        match first_by_names(anime_cache, n, sig) {
            Some(k) => {
                let r = anime_cache.caches[k].0.clone();
                assert(anime_cache.caches@[k as int].0@ == r@);
                assert(key_in(anime_cache.caches@, r@));
                Some(r)
            },
            None => {
                proof {
                    let reg = anime_cache.caches@;
                    assert forall|j: int| 0 <= j < reg.len() implies !(#[trigger] reg[j]).1.holds(source@) by {
                        if j < n {
                            assert(reg.take(n as int)[j] == reg[j]);
                            assert(reg[j] == old_reg[j]);
                        }
                    }
                }
                None
            },
        }
    }

    /// Finds the target that a source belongs to, given the listing of the source folder.
    /// Caches of targets not built yet are built on the way, one at a time, and only as
    /// long as no match has turned up.
    pub fn find_target<T: Fn(&Vec<String>) -> Vec<Entry>>(
        &self,
        source: &str,
        source_entries: &Vec<Entry>,
        anime_cache: &mut CacheMap,
        list_anime: &T,
    ) -> (r: Option<String>)
        requires
            registry_ok(old(anime_cache).caches@),
            forall|p: &Vec<String>| list_anime.requires((p,)),
        ensures
            registry_ok(final(anime_cache).caches@),
            grown_by_targets(old(anime_cache).caches@, final(anime_cache).caches@, self.data.animes@),
            built_in_order(old(anime_cache).caches@, final(anime_cache).caches@, self.data.animes@),
            search_outcome(
                old(anime_cache).caches@,
                final(anime_cache).caches@,
                source@,
                signal_names(source_entries@),
                self.data.animes@,
                r,
            ),
    {
        match first_by_name(anime_cache, source) {
            Some(i) => {
                assert(anime_cache.caches@.take(anime_cache.caches@.len() as int) =~= anime_cache.caches@);
                assert(built_keys(anime_cache.caches@, anime_cache.caches@.len() as int) =~= pending(
                    anime_cache.caches@,
                    self.data.animes@,
                    0,
                ));
                Some(anime_cache.caches[i].0.clone())
            },
            None => {
                let sig = signature(source_entries);
                assert(views(sig@) =~= signal_names(source_entries@));
                self.search_after_listing(source, &sig, anime_cache, list_anime)
            },
        }
    }

    /// Finds the target that a source belongs to: first a cache built before that holds
    /// the source's own name; else, with the source folder listed, as `find_target`.
    pub fn find_exist_anime<S: Fn(&Vec<String>) -> Vec<Entry>, T: Fn(&Vec<String>) -> Vec<Entry>>(
        &self,
        source: &String,
        anime_cache: &mut CacheMap,
        list_source: &S,
        list_anime: &T,
    ) -> (r: Option<String>)
        requires
            registry_ok(old(anime_cache).caches@),
            forall|p: &Vec<String>| list_source.requires((p,)),
            forall|p: &Vec<String>| list_anime.requires((p,)),
        ensures
            registry_ok(final(anime_cache).caches@),
            grown_by_targets(old(anime_cache).caches@, final(anime_cache).caches@, self.data.animes@),
            built_in_order(old(anime_cache).caches@, final(anime_cache).caches@, self.data.animes@),
            forall|i: int|
                first_with_name(
                    old(anime_cache).caches@,
                    0,
                    old(anime_cache).caches@.len() as int,
                    source@,
                    i,
                ) ==> r is Some && r.unwrap()@ == old(anime_cache).caches@[i].0@
                    && final(anime_cache).caches@ == old(anime_cache).caches@,
            none_with_name(old(anime_cache).caches@, 0, old(anime_cache).caches@.len() as int, source@)
                ==> exists|p: Vec<String>, entries: Vec<Entry>|
                {
                    &&& p@.len() == 1
                    &&& p@[0]@ == source@
                    &&& list_source.ensures((&p,), entries)
                    &&& later_outcome(
                        final(anime_cache).caches@,
                        old(anime_cache).caches@.len() as int,
                        source@,
                        signal_names(entries@),
                        self.data.animes@,
                        r,
                    )
                },
            settled(*list_source, source@, final(anime_cache).caches@, self.data.animes@, r),
    {
        match first_by_name(anime_cache, source.as_str()) {
            Some(i) => {
                assert(anime_cache.caches@.take(anime_cache.caches@.len() as int) =~= anime_cache.caches@);
                assert(built_keys(anime_cache.caches@, anime_cache.caches@.len() as int) =~= pending(
                    anime_cache.caches@,
                    self.data.animes@,
                    0,
                ));
                let r = anime_cache.caches[i].0.clone();
                assert(anime_cache.caches@[i as int].0@ == r@);
                assert(found_in(*list_source, source@, anime_cache.caches@, r@));
                Some(r)
            },
            None => {
                let mut dir: Vec<String> = Vec::new();
                dir.push(source.clone());
                let entries = list_source(&dir);
                let sig = signature(&entries);
                assert(views(sig@) =~= signal_names(entries@));
                let r = self.search_after_listing(source.as_str(), &sig, anime_cache, list_anime);
                assert(dir@.len() == 1 && dir@[0]@ == source@);
                assert(listing_of(*list_source, source@, entries));
                r
            },
        }
    }
}

/// Of two built caches that both hold a name, the search picks the one built first, when
/// the name is the source's own or is in its signature while neither cache holds the
/// source's own name.
pub proof fn lemma_first_built_wins(
    old: Seq<(String, Cache)>,
    new: Seq<(String, Cache)>,
    source: Seq<char>,
    names: Seq<Seq<char>>,
    animes: Seq<String>,
    r: Option<String>,
    x: Seq<char>,
)
    requires
        search_outcome(old, new, source, names, animes, r),
        grown_by_targets(old, new, animes),
        old.len() == 2,
        old[0].1.holds(x),
        old[1].1.holds(x),
        x == source || (named(names, x) && !old[0].1.holds(source) && !old[1].1.holds(source)),
    ensures
        r is Some,
        r.unwrap()@ == old[0].0@,
        new == old,
{
    if x == source {
        assert(first_with_name(old, 0, 2, source, 0));
    } else {
        assert(none_with_name(old, 0, 2, source));
        assert(new.take(2)[0] == new[0]);
        assert(new[0] == old[0]);
        let j = choose|j: int| 0 <= j < names.len() && names[j] == x;
        assert(old[0].1.holds(names[j]));
        assert(holds_named(new[0].1, names));
        assert(first_with_names(new, 0, 2, names, 0));
    }
}

} // verus!
