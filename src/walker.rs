//! The walk over the records that queues each record to copy with its target.
use vstd::prelude::*;

use crate::cache::{key_in, Cache};
use crate::data::Data;
use crate::matcher::{found_in, grown_by_targets, holds_named, is_target, listing_of, not_found, settled};
use crate::registry::{registry_ok, CacheMap};
use crate::signal::{signal_names, Entry};
use crate::source_anime_map::{children, FileType, SourceAnimeMap};

verus! {

/// Growing by targets twice is growing by targets.
proof fn lemma_grown_trans(
    a: Seq<(String, Cache)>,
    b: Seq<(String, Cache)>,
    c: Seq<(String, Cache)>,
    animes: Seq<String>,
)
    requires
        grown_by_targets(a, b, animes),
        grown_by_targets(b, c, animes),
    ensures
        grown_by_targets(a, c, animes),
{
    assert forall|k: int| 0 <= k < a.len() implies #[trigger] c[k] == a[k] by {
        assert(c.take(b.len() as int)[k] == c[k]);
        assert(b.take(a.len() as int)[k] == b[k]);
    }
    assert(c.take(a.len() as int) =~= a);
    assert forall|k: int| a.len() <= k < c.len() implies is_target(animes, (#[trigger] c[k]).0@) by {
        if k < b.len() {
            assert(c.take(b.len() as int)[k] == c[k]);
            assert(c[k] == b[k]);
        }
    }
}

/// A record that takes part and is neither a partial download nor nested.
pub open spec fn plain_active(m: SourceAnimeMap) -> bool {
    &&& m.active
    &&& !(m.file_type is Other)
    &&& !(m.file_type is Nesting)
}

/// Queue item `item` addresses a record of `maps` that takes part: record `item.0`
/// itself, or child `item.1` of nested record `item.0`, a child that takes part too. A
/// record that is not nested goes by index 0; one that already has a target carries it.
pub open spec fn item_ok(maps: Seq<SourceAnimeMap>, item: (usize, usize, String)) -> bool {
    let m = maps[item.0 as int];
    &&& item.0 < maps.len()
    &&& m.active
    &&& !(m.file_type is Other)
    &&& m.file_type is Nesting ==> {
        let c = children(m)[item.1 as int];
        &&& item.1 < children(m).len()
        &&& c.active
        &&& !(c.file_type is Other)
        &&& !(c.file_type is Nesting) && c.anime@.len() > 0 ==> item.2@ == c.anime@
    }
    &&& !(m.file_type is Nesting) ==> item.1 == 0 && (m.anime@.len() > 0 ==> item.2@ == m.anime@)
}

/// Item `x` comes before item `y`: by record, then by child; only the children of a
/// nested child share a path.
pub open spec fn path_before(maps: Seq<SourceAnimeMap>, x: (usize, usize, String), y: (usize, usize, String)) -> bool {
    ||| x.0 < y.0
    ||| x.0 == y.0 && maps[x.0 as int].file_type is Nesting && (x.1 < y.1 || (x.1 == y.1
        && children(maps[x.0 as int])[x.1 as int].file_type is Nesting))
}

/// The items of `q` come in the order of the records they address.
pub open spec fn ordered(maps: Seq<SourceAnimeMap>, q: Seq<(usize, usize, String)>) -> bool {
    forall|a: int, b: int| 0 <= a < b < q.len() ==> path_before(maps, #[trigger] q[a], #[trigger] q[b])
}

/// Record `m` at path `(i, j)` is dealt with in `q`: one with a target is queued with it;
/// one without is queued with a target whose cache in `reg` shows the evidence of its
/// search, or is not queued where that search found none.
pub open spec fn leaf_dealt<S: Fn(&Vec<String>) -> Vec<Entry>>(
    list: S,
    m: SourceAnimeMap,
    q: Seq<(usize, usize, String)>,
    i: int,
    j: int,
    reg: Seq<(String, Cache)>,
    animes: Seq<String>,
) -> bool {
    if m.anime@.len() > 0 {
        exists|k: int| 0 <= k < q.len() && (#[trigger] q[k]).0 == i && q[k].1 == j && q[k].2@ == m.anime@
    } else {
        ||| exists|k: int|
            0 <= k < q.len() && (#[trigger] q[k]).0 == i && q[k].1 == j && found_in(list, m.source@, reg, q[k].2@)
        ||| (forall|k: int| 0 <= k < q.len() ==> !((#[trigger] q[k]).0 == i && q[k].1 == j)) && not_found(
            list,
            m.source@,
            reg,
            animes,
        )
    }
}

/// Record `i` of `maps` is dealt with in `q`: itself where it is plain, each plain child
/// where it is nested and takes part.
pub open spec fn record_dealt<S: Fn(&Vec<String>) -> Vec<Entry>>(
    list: S,
    maps: Seq<SourceAnimeMap>,
    q: Seq<(usize, usize, String)>,
    i: int,
    reg: Seq<(String, Cache)>,
    animes: Seq<String>,
) -> bool {
    let m = maps[i];
    &&& plain_active(m) ==> leaf_dealt(list, m, q, i, 0, reg, animes)
    &&& m.active && m.file_type is Nesting ==> forall|j: int|
        0 <= j < children(m).len() && plain_active(#[trigger] children(m)[j]) ==> leaf_dealt(
            list,
            children(m)[j],
            q,
            i,
            j,
            reg,
            animes,
        )
}

/// `q` is the queue of records of `maps` to copy, with `reg` the registry after the
/// searches: each item addresses a record that takes part, in record order, and each
/// record is dealt with.
pub open spec fn walked<S: Fn(&Vec<String>) -> Vec<Entry>>(
    list: S,
    maps: Seq<SourceAnimeMap>,
    q: Seq<(usize, usize, String)>,
    reg: Seq<(String, Cache)>,
    animes: Seq<String>,
) -> bool {
    &&& forall|k: int| 0 <= k < q.len() ==> item_ok(maps, #[trigger] q[k])
    &&& ordered(maps, q)
    &&& forall|i: int| 0 <= i < maps.len() ==> #[trigger] record_dealt(list, maps, q, i, reg, animes)
}

/// What a search found stays found, and what it did not find stays unfound, as the
/// registry grows by targets.
proof fn lemma_settled_grow<S: Fn(&Vec<String>) -> Vec<Entry>>(
    list: S,
    source: Seq<char>,
    reg: Seq<(String, Cache)>,
    reg2: Seq<(String, Cache)>,
    animes: Seq<String>,
)
    requires
        registry_ok(reg2),
        grown_by_targets(reg, reg2, animes),
    ensures
        forall|t: Seq<char>| found_in(list, source, reg, t) ==> found_in(list, source, reg2, t),
        not_found(list, source, reg, animes) ==> reg2 == reg,
{
    assert forall|t: Seq<char>| found_in(list, source, reg, t) implies found_in(list, source, reg2, t) by {
        let i = choose|i: int|
            0 <= i < reg.len() && (#[trigger] reg[i]).0@ == t && (reg[i].1.holds(source) || exists|e: Vec<Entry>|
                listing_of(list, source, e) && holds_named(reg[i].1, signal_names(e@)));
        assert(reg2.take(reg.len() as int)[i] == reg2[i]);
        assert(reg2[i] == reg[i]);
    }
    if not_found(list, source, reg, animes) {
        if reg2.len() > reg.len() {
            let k = reg.len() as int;
            assert(is_target(animes, reg2[k].0@));
            let u = choose|u: int| 0 <= u < animes.len() && (#[trigger] animes[u])@ == reg2[k].0@;
            assert(key_in(reg, animes[u]@));
            let j = choose|j: int| 0 <= j < reg.len() && (#[trigger] reg[j]).0@ == animes[u]@;
            assert(reg2.take(reg.len() as int)[j] == reg2[j]);
            assert(reg2[j].0@ == reg2[k].0@);
        }
        assert(reg2 =~= reg2.take(reg.len() as int));
    }
}

/// A record dealt with stays dealt with when the queue gains items for other records and
/// the registry grows by targets.
proof fn lemma_leaf_extend<S: Fn(&Vec<String>) -> Vec<Entry>>(
    list: S,
    m: SourceAnimeMap,
    q: Seq<(usize, usize, String)>,
    q2: Seq<(usize, usize, String)>,
    i: int,
    j: int,
    reg: Seq<(String, Cache)>,
    reg2: Seq<(String, Cache)>,
    animes: Seq<String>,
)
    requires
        leaf_dealt(list, m, q, i, j, reg, animes),
        q.len() <= q2.len(),
        forall|k: int| 0 <= k < q.len() ==> #[trigger] q2[k] == q[k],
        forall|k: int| q.len() <= k < q2.len() ==> (#[trigger] q2[k]).0 != i,
        registry_ok(reg2),
        grown_by_targets(reg, reg2, animes),
    ensures
        leaf_dealt(list, m, q2, i, j, reg2, animes),
{
    lemma_settled_grow(list, m.source@, reg, reg2, animes);
    if m.anime@.len() > 0 {
        let k = choose|k: int| 0 <= k < q.len() && (#[trigger] q[k]).0 == i && q[k].1 == j && q[k].2@ == m.anime@;
        assert(q2[k] == q[k]);
    } else if exists|k: int|
        0 <= k < q.len() && (#[trigger] q[k]).0 == i && q[k].1 == j && found_in(list, m.source@, reg, q[k].2@) {
        let k = choose|k: int|
            0 <= k < q.len() && (#[trigger] q[k]).0 == i && q[k].1 == j && found_in(list, m.source@, reg, q[k].2@);
        assert(q2[k] == q[k]);
    } else {
        assert forall|k: int| 0 <= k < q2.len() implies !((#[trigger] q2[k]).0 == i && q2[k].1 == j) by {
            if k < q.len() {
                assert(q2[k] == q[k]);
            }
        }
    }
}

/// A record dealt with stays dealt with when the queue gains items for other records and
/// the registry grows by targets.
proof fn lemma_record_extend<S: Fn(&Vec<String>) -> Vec<Entry>>(
    list: S,
    maps: Seq<SourceAnimeMap>,
    q: Seq<(usize, usize, String)>,
    q2: Seq<(usize, usize, String)>,
    i: int,
    reg: Seq<(String, Cache)>,
    reg2: Seq<(String, Cache)>,
    animes: Seq<String>,
)
    requires
        record_dealt(list, maps, q, i, reg, animes),
        q.len() <= q2.len(),
        forall|k: int| 0 <= k < q.len() ==> #[trigger] q2[k] == q[k],
        forall|k: int| q.len() <= k < q2.len() ==> (#[trigger] q2[k]).0 != i,
        registry_ok(reg2),
        grown_by_targets(reg, reg2, animes),
    ensures
        record_dealt(list, maps, q2, i, reg2, animes),
{
    let m = maps[i];
    if plain_active(m) {
        lemma_leaf_extend(list, m, q, q2, i, 0, reg, reg2, animes);
    }
    if m.active && m.file_type is Nesting {
        assert forall|j: int| 0 <= j < children(m).len() && plain_active(#[trigger] children(m)[j]) implies leaf_dealt(
            list,
            children(m)[j],
            q2,
            i,
            j,
            reg2,
            animes,
        ) by {
            lemma_leaf_extend(list, children(m)[j], q, q2, i, j, reg, reg2, animes);
        }
    }
}

/// A child dealt with in the queue of its nested record is dealt with in the outer queue,
/// where the child's items stand at `base` on, addressed through record `i`.
proof fn lemma_leaf_lift<S: Fn(&Vec<String>) -> Vec<Entry>>(
    list: S,
    c: SourceAnimeMap,
    inner: Seq<(usize, usize, String)>,
    q: Seq<(usize, usize, String)>,
    base: int,
    i: int,
    j: int,
    reg: Seq<(String, Cache)>,
    animes: Seq<String>,
)
    requires
        leaf_dealt(list, c, inner, j, 0, reg, animes),
        forall|k: int| 0 <= k < inner.len() && (#[trigger] inner[k]).0 == j ==> inner[k].1 == 0,
        0 <= base,
        q.len() == base + inner.len(),
        forall|k: int| 0 <= k < base ==> (#[trigger] q[k]).0 != i,
        forall|k: int|
            0 <= k < inner.len() ==> (#[trigger] q[base + k]).0 == i && q[base + k].1 == inner[k].0 && q[base
                + k].2 == inner[k].2,
    ensures
        leaf_dealt(list, c, q, i, j, reg, animes),
{
    if c.anime@.len() > 0 {
        let k = choose|k: int| 0 <= k < inner.len() && (#[trigger] inner[k]).0 == j && inner[k].1 == 0 && inner[k].2@ == c.anime@;
        assert(q[base + k].0 == i);
    } else if exists|k: int|
        0 <= k < inner.len() && (#[trigger] inner[k]).0 == j && inner[k].1 == 0 && found_in(list, c.source@, reg, inner[k].2@) {
        let k = choose|k: int|
            0 <= k < inner.len() && (#[trigger] inner[k]).0 == j && inner[k].1 == 0 && found_in(list, c.source@, reg, inner[k].2@);
        assert(q[base + k].0 == i);
    } else {
        assert forall|k: int| 0 <= k < q.len() implies !((#[trigger] q[k]).0 == i && q[k].1 == j) by {
            if k >= base {
                let l = k - base;
                assert(q[base + l] == q[k]);
                if inner[l].0 == j {
                    assert(inner[l].1 == 0);
                }
            }
        }
    }
}

impl Data {
    /// The queue of records to copy, each with its target: records that take part and
    /// already have a target; records without one whose target the search finds; and,
    /// for a nested record, the queue of its children. `None` for an empty queue.
    pub fn need_reflink_anime_indexes<S: Fn(&Vec<String>) -> Vec<Entry>, T: Fn(&Vec<String>) -> Vec<Entry>>(
        &self,
        source_anime_maps: &Vec<SourceAnimeMap>,
        anime_cache: &mut CacheMap,
        list_source: &S,
        list_anime: &T,
    ) -> (r: Option<Vec<(usize, usize, String)>>)
        requires
            registry_ok(old(anime_cache).caches@),
            forall|p: &Vec<String>| list_source.requires((p,)),
            forall|p: &Vec<String>| list_anime.requires((p,)),
        ensures
            registry_ok(final(anime_cache).caches@),
            grown_by_targets(old(anime_cache).caches@, final(anime_cache).caches@, self.data.animes@),
            match r {
                Some(q) => q@.len() > 0 && walked(
                    *list_source,
                    source_anime_maps@,
                    q@,
                    final(anime_cache).caches@,
                    self.data.animes@,
                ),
                None => walked(
                    *list_source,
                    source_anime_maps@,
                    Seq::empty(),
                    final(anime_cache).caches@,
                    self.data.animes@,
                ),
            },
        decreases source_anime_maps@,
    {
        let ghost old_reg = anime_cache.caches@;
        let ghost maps = source_anime_maps@;
        let ghost animes = self.data.animes@;
        let mut indexes: Vec<(usize, usize, String)> = Vec::new();
        let mut i: usize = 0;
        assert(anime_cache.caches@.take(old_reg.len() as int) =~= old_reg);
        while i < source_anime_maps.len()
            invariant
                old_reg == old(anime_cache).caches@,
                maps == source_anime_maps@,
                animes == self.data.animes@,
                forall|p: &Vec<String>| list_source.requires((p,)),
                forall|p: &Vec<String>| list_anime.requires((p,)),
                registry_ok(anime_cache.caches@),
                grown_by_targets(old_reg, anime_cache.caches@, animes),
                0 <= i <= maps.len(),
                forall|k: int| 0 <= k < indexes@.len() ==> item_ok(maps, #[trigger] indexes@[k]),
                forall|k: int| 0 <= k < indexes@.len() ==> (#[trigger] indexes@[k]).0 < i,
                ordered(maps, indexes@),
                forall|a: int| 0 <= a < i ==> #[trigger] record_dealt(*list_source, maps, indexes@, a, anime_cache.caches@, animes),
            decreases maps.len() - i,
        {
            let map = &source_anime_maps[i];
            let ghost before = indexes@;
            let ghost reg0 = anime_cache.caches@;
            if map.active() {
                match &map.file_type {
                    FileType::Nesting(nesting) => {
                        proof {
                            assert(decreases_to!(source_anime_maps@ => source_anime_maps@[i as int]));
                            assert(decreases_to!(source_anime_maps@[i as int] => source_anime_maps@[i as int].file_type));
                            assert(decreases_to!(source_anime_maps@[i as int].file_type => nesting));
                            assert(decreases_to!(nesting => nesting@));
                        }
                        let inner = self.need_reflink_anime_indexes(nesting, anime_cache, list_source, list_anime);
                        let ghost kids = nesting@;
                        let ghost inner_q: Seq<(usize, usize, String)> = if inner is Some {
                            inner->0@
                        } else {
                            Seq::empty()
                        };
                        proof {
                            assert(walked(*list_source, kids, inner_q, anime_cache.caches@, animes));
                        }
                        match inner {
                            Some(inner) => {
                                let mut k: usize = 0;
                                while k < inner.len()
                                    invariant
                                        maps == source_anime_maps@,
                                        maps[i as int].file_type is Nesting,
                                        children(maps[i as int]) == kids,
                                        maps[i as int].active,
                                        0 <= i < maps.len(),
                                        inner@ == inner_q,
                                        forall|m: int| 0 <= m < inner_q.len() ==> item_ok(kids, #[trigger] inner_q[m]),
                                        ordered(kids, inner_q),
                                        0 <= k <= inner@.len(),
                                        indexes@.len() == before.len() + k,
                                        forall|m: int| 0 <= m < before.len() ==> #[trigger] indexes@[m] == before[m],
                                        forall|m: int|
                                            0 <= m < k ==> (#[trigger] indexes@[before.len() + m]).0 == i
                                                && indexes@[before.len() + m].1 == inner_q[m].0
                                                && indexes@[before.len() + m].2 == inner_q[m].2,
                                    decreases inner@.len() - k,
                                {
                                    let item = &inner[k];
                                    indexes.push((i, item.0, item.2.clone()));
                                    proof {
                                        assert(indexes@[before.len() + k as int] == (i, item.0, item.2));
                                        assert forall|m: int| 0 <= m < before.len() implies #[trigger] indexes@[m] == before[m] by {
                                            assert(indexes@.drop_last()[m] == indexes@[m]);
                                        }
                                        assert forall|m: int| 0 <= m < k implies (#[trigger] indexes@[before.len() + m]).0 == i
                                            && indexes@[before.len() + m].1 == inner_q[m].0
                                            && indexes@[before.len() + m].2 == inner_q[m].2 by {
                                            assert(indexes@.drop_last()[before.len() + m] == indexes@[before.len() + m]);
                                        }
                                    }
                                    k = k + 1;
                                }
                            },
                            None => {},
                        }
                        proof {
                            let q = indexes@;
                            let b = before.len() as int;
                            assert(q.len() == b + inner_q.len());
                            assert forall|m: int| 0 <= m < inner_q.len() implies (#[trigger] q[b + m]).0 == i
                                && q[b + m].1 == inner_q[m].0 && q[b + m].2 == inner_q[m].2 by {}
                            assert forall|kk: int| 0 <= kk < q.len() implies item_ok(maps, #[trigger] q[kk]) && q[kk].0 <= i by {
                                if kk >= b {
                                    let m = kk - b;
                                    assert(q[b + m] == q[kk]);
                                    assert(item_ok(kids, inner_q[m]));
                                } else {
                                    assert(q[kk] == before[kk]);
                                }
                            }
                            assert forall|x: int, y: int| 0 <= x < y < q.len() implies path_before(maps, #[trigger] q[x], #[trigger] q[y]) by {
                                if y < b {
                                    assert(q[x] == before[x] && q[y] == before[y]);
                                } else if x < b {
                                    assert(q[x] == before[x]);
                                    assert(q[b + (y - b)] == q[y]);
                                } else {
                                    assert(q[b + (x - b)] == q[x]);
                                    assert(q[b + (y - b)] == q[y]);
                                    assert(path_before(kids, inner_q[x - b], inner_q[y - b]));
                                }
                            }
                            let reg = anime_cache.caches@;
                            assert forall|j: int| 0 <= j < kids.len() && plain_active(#[trigger] kids[j]) implies leaf_dealt(
                                *list_source,
                                kids[j],
                                q,
                                i as int,
                                j,
                                reg,
                                animes,
                            ) by {
                                assert(record_dealt(*list_source, kids, inner_q, j, reg, animes));
                                assert forall|kk: int| 0 <= kk < inner_q.len() && (#[trigger] inner_q[kk]).0 == j implies inner_q[kk].1 == 0 by {
                                    assert(item_ok(kids, inner_q[kk]));
                                }
                                assert forall|kk: int| 0 <= kk < b implies (#[trigger] q[kk]).0 != i by {
                                    assert(q[kk] == before[kk]);
                                }
                                lemma_leaf_lift(*list_source, kids[j], inner_q, q, b, i as int, j, reg, animes);
                            }
                            assert(record_dealt(*list_source, maps, q, i as int, reg, animes));
                            lemma_grown_trans(old_reg, reg0, reg, animes);
                        }
                    },
                    _ => {
                        if map.anime.as_str().is_empty() {
                            let found = self.find_exist_anime(&map.source, anime_cache, list_source, list_anime);
                            match found {
                                Some(anime) => {
                                    indexes.push((i, 0, anime));
                                },
                                None => {},
                            }
                            proof {
                                lemma_grown_trans(old_reg, reg0, anime_cache.caches@, animes);
                            }
                        } else {
                            indexes.push((i, 0, map.anime.clone()));
                        }
                        proof {
                            let q = indexes@;
                            assert forall|m: int| 0 <= m < before.len() implies #[trigger] q[m] == before[m] by {
                                if q.len() > before.len() {
                                    assert(q.drop_last()[m] == q[m]);
                                }
                            }
                            if q.len() > before.len() {
                                assert(q[before.len() as int].0 == i);
                            }
                            assert(record_dealt(*list_source, maps, q, i as int, anime_cache.caches@, animes));
                        }
                    },
                }
            } else {
                proof {
                    assert(record_dealt(*list_source, maps, indexes@, i as int, anime_cache.caches@, animes));
                }
            }
            proof {
                let q = indexes@;
                let reg = anime_cache.caches@;
                assert forall|m: int| 0 <= m < before.len() implies #[trigger] q[m] == before[m] by {
                    if q.len() > before.len() && !(maps[i as int].file_type is Nesting) {
                        assert(q.drop_last()[m] == q[m]);
                    }
                }
                assert forall|m: int| before.len() <= m < q.len() implies (#[trigger] q[m]).0 == i by {
                    if !(maps[i as int].file_type is Nesting) {
                        assert(q[m] == q[before.len() as int]);
                    } else {
                        assert(q[before.len() + (m - before.len())] == q[m]);
                    }
                }
                if reg == reg0 {
                    assert(reg.take(reg0.len() as int) =~= reg0);
                }
                assert forall|a: int| 0 <= a <= i implies #[trigger] record_dealt(*list_source, maps, q, a, reg, animes) by {
                    if a < i {
                        lemma_record_extend(*list_source, maps, before, q, a, reg0, reg, animes);
                    }
                }
            }
            i = i + 1;
        }
        if indexes.len() > 0 {
            Some(indexes)
        } else {
            assert(indexes@ =~= Seq::<(usize, usize, String)>::empty());
            None
        }
    }
}

} // verus!
