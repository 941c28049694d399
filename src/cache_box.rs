//! A content cache whose plain inserts bind leaves and whose `insert_cache` hands out a
//! fresh empty branch to fill.
use vstd::prelude::*;

use crate::cache::array_to_vec;
use crate::text::str_eq;

verus! {

/// A node of a content cache box: a file or a folder that is not walked (`Leaf`), or a folder
/// whose significant entries are its keys (`Branch`).
#[derive(Debug)]
pub enum CacheBox {
    Leaf,
    Branch(Vec<(String, CacheBox)>),
}

/// The keys of `s` are pairwise distinct.
pub open spec fn unique_keys(s: Seq<(String, CacheBox)>) -> bool {
    forall|i: int, j: int| 0 <= i < j < s.len() ==> s[i].0@ != s[j].0@
}

/// `key` is the key of some entry of `s`.
pub open spec fn key_in(s: Seq<(String, CacheBox)>, key: Seq<char>) -> bool {
    exists|i: int| 0 <= i < s.len() && (#[trigger] s[i]).0@ == key
}

/// `new` is `old` with `key` bound to `value`: in place where `key` was present,
/// appended at the end where it was not.
pub open spec fn put_into(
    old: Seq<(String, CacheBox)>,
    new: Seq<(String, CacheBox)>,
    key: Seq<char>,
    value: CacheBox,
) -> bool {
    ||| exists|i: int|
        0 <= i < old.len() && (#[trigger] old[i]).0@ == key && new == old.update(i, (old[i].0, value))
    ||| !key_in(old, key) && new.len() == old.len() + 1 && new.drop_last() == old && new.last().0@
        == key && new.last().1 == value
}

/// `e` binds the keys of the pairs, and only those, each to the value of its last pair.
pub open spec fn binds_pairs(pairs: Seq<(&str, CacheBox)>, e: Seq<(String, CacheBox)>) -> bool {
    &&& unique_keys(e)
    &&& forall|k: Seq<char>|
        key_in(e, k) <==> exists|i: int| 0 <= i < pairs.len() && (#[trigger] pairs[i]).0@ == k
    &&& forall|j: int|
        0 <= j < e.len() ==> exists|i: int|
            0 <= i < pairs.len() && (#[trigger] pairs[i]).0@ == (#[trigger] e[j]).0@ && e[j].1
                == pairs[i].1 && forall|l: int| i < l < pairs.len() ==> (#[trigger] pairs[l]).0@ != pairs[i].0@
}

/// `r` is what inserting the pairs one after the other gives: a leaf for no pairs, else a
/// branch that binds them.
pub open spec fn built_from_pairs(pairs: Seq<(&str, CacheBox)>, r: CacheBox) -> bool {
    if pairs.len() == 0 {
        r is Leaf
    } else {
        r is Branch && binds_pairs(pairs, r.entries())
    }
}

/// Inserting one more pair keeps the entries bound to the pairs so far.
proof fn lemma_binds_push(
    pairs: Seq<(&str, CacheBox)>,
    p: (&str, CacheBox),
    e: Seq<(String, CacheBox)>,
    n: Seq<(String, CacheBox)>,
)
    requires
        binds_pairs(pairs, e),
        put_into(e, n, p.0@, p.1),
    ensures
        binds_pairs(pairs.push(p), n),
{
    let q = pairs.push(p);
    assert(q[pairs.len() as int] == p);
    assert forall|i: int| 0 <= i < pairs.len() implies #[trigger] q[i] == pairs[i] by {}
    if key_in(e, p.0@) {
        let i = choose|i: int|
            0 <= i < e.len() && (#[trigger] e[i]).0@ == p.0@ && n == e.update(i, (e[i].0, p.1));
        assert forall|k: Seq<char>| key_in(n, k) <==> exists|m: int| 0 <= m < q.len() && (#[trigger] q[m]).0@ == k by {
            if key_in(n, k) {
                let j = choose|j: int| 0 <= j < n.len() && (#[trigger] n[j]).0@ == k;
                assert(e[j].0@ == k);
                assert(key_in(e, k));
                let m = choose|m: int| 0 <= m < pairs.len() && (#[trigger] pairs[m]).0@ == k;
                assert(q[m].0@ == k);
            }
            if exists|m: int| 0 <= m < q.len() && (#[trigger] q[m]).0@ == k {
                let m = choose|m: int| 0 <= m < q.len() && (#[trigger] q[m]).0@ == k;
                if m < pairs.len() {
                    assert(pairs[m].0@ == k);
                    assert(key_in(e, k));
                    let j = choose|j: int| 0 <= j < e.len() && (#[trigger] e[j]).0@ == k;
                    assert(n[j].0@ == k);
                } else {
                    assert(n[i].0@ == k);
                }
            }
        }
        assert forall|j: int| 0 <= j < n.len() implies exists|m: int|
            0 <= m < q.len() && (#[trigger] q[m]).0@ == (#[trigger] n[j]).0@ && n[j].1 == q[m].1
                && forall|l: int| m < l < q.len() ==> (#[trigger] q[l]).0@ != q[m].0@ by {
            if j == i {
                assert(q[pairs.len() as int].0@ == n[j].0@);
            } else {
                assert(n[j] == e[j]);
                let m = choose|m: int|
                    0 <= m < pairs.len() && (#[trigger] pairs[m]).0@ == (#[trigger] e[j]).0@ && e[j].1
                        == pairs[m].1 && forall|l: int| m < l < pairs.len() ==> (#[trigger] pairs[l]).0@ != pairs[m].0@;
                assert(q[m] == pairs[m]);
                assert forall|l: int| m < l < q.len() implies (#[trigger] q[l]).0@ != q[m].0@ by {
                    if l < pairs.len() {
                        assert(q[l] == pairs[l]);
                    } else {
                        assert(e[i].0@ != e[j].0@);
                    }
                }
            }
        }
    } else {
        assert forall|j: int| 0 <= j < e.len() implies #[trigger] n[j] == e[j] by {
            assert(n.drop_last()[j] == n[j]);
        }
        assert(n[n.len() - 1] == n.last());
        assert forall|k: Seq<char>| key_in(n, k) <==> exists|m: int| 0 <= m < q.len() && (#[trigger] q[m]).0@ == k by {
            if key_in(n, k) {
                let j = choose|j: int| 0 <= j < n.len() && (#[trigger] n[j]).0@ == k;
                if j < e.len() {
                    assert(key_in(e, k));
                    let m = choose|m: int| 0 <= m < pairs.len() && (#[trigger] pairs[m]).0@ == k;
                    assert(q[m].0@ == k);
                } else {
                    assert(q[pairs.len() as int].0@ == k);
                }
            }
            if exists|m: int| 0 <= m < q.len() && (#[trigger] q[m]).0@ == k {
                let m = choose|m: int| 0 <= m < q.len() && (#[trigger] q[m]).0@ == k;
                if m < pairs.len() {
                    assert(pairs[m].0@ == k);
                    assert(key_in(e, k));
                    let j = choose|j: int| 0 <= j < e.len() && (#[trigger] e[j]).0@ == k;
                    assert(n[j].0@ == k);
                } else {
                    assert(n[n.len() - 1].0@ == k);
                }
            }
        }
        assert forall|j: int| 0 <= j < n.len() implies exists|m: int|
            0 <= m < q.len() && (#[trigger] q[m]).0@ == (#[trigger] n[j]).0@ && n[j].1 == q[m].1
                && forall|l: int| m < l < q.len() ==> (#[trigger] q[l]).0@ != q[m].0@ by {
            if j == e.len() {
                assert(q[pairs.len() as int].0@ == n[j].0@);
            } else {
                let m = choose|m: int|
                    0 <= m < pairs.len() && (#[trigger] pairs[m]).0@ == (#[trigger] e[j]).0@ && e[j].1
                        == pairs[m].1 && forall|l: int| m < l < pairs.len() ==> (#[trigger] pairs[l]).0@ != pairs[m].0@;
                assert(q[m] == pairs[m]);
                assert forall|l: int| m < l < q.len() implies (#[trigger] q[l]).0@ != q[m].0@ by {
                    if l < pairs.len() {
                        assert(q[l] == pairs[l]);
                    } else {
                        assert(key_in(e, e[j].0@));
                    }
                }
            }
        }
        assert forall|a: int, b: int| 0 <= a < b < n.len() implies n[a].0@ != n[b].0@ by {
            if b == e.len() {
                assert(key_in(e, n[a].0@) || a >= e.len());
            }
        }
    }
}

/// Some entry of `w` has the key of `e` and a tree the same as that of `e`.
pub open spec fn has_match(w: Seq<(String, CacheBox)>, e: (String, CacheBox)) -> bool
    decreases e,
{
    exists|b: int| 0 <= b < w.len() && (#[trigger] w[b]).0@ == e.0@ && e.1.same(w[b].1)
}

impl CacheBox {
    /// The entries of a branch, in the order their keys first came; none for a leaf.
    pub open spec fn entries(self) -> Seq<(String, CacheBox)> {
        match self {
            CacheBox::Leaf => Seq::empty(),
            CacheBox::Branch(v) => v@,
        }
    }

    /// `key` is a key of this node itself.
    pub open spec fn has_key(self, key: Seq<char>) -> bool {
        self is Branch && key_in(self.entries(), key)
    }

    /// `name` is a key of this node or of any node below it.
    pub open spec fn holds(self, name: Seq<char>) -> bool
        decreases self,
    {
        match self {
            CacheBox::Leaf => false,
            CacheBox::Branch(v) => exists|i: int|
                0 <= i < v@.len() && ((#[trigger] v@[i]).0@ == name || v@[i].1.holds(name)),
        }
    }

    /// Some name of `names` is held by this node.
    pub open spec fn holds_any(self, names: Seq<String>) -> bool {
        exists|j: int| 0 <= j < names.len() && self.holds((#[trigger] names[j])@)
    }

    /// No branch of the tree has two entries with one key.
    pub open spec fn wf(self) -> bool
        decreases self,
    {
        match self {
            CacheBox::Leaf => true,
            CacheBox::Branch(v) => unique_keys(v@) && forall|i: int|
                0 <= i < v@.len() ==> (#[trigger] v@[i]).1.wf(),
        }
    }

    /// The two trees have the same keys at every level, whatever the order of the entries.
    pub open spec fn same(self, o: CacheBox) -> bool
        decreases self,
    {
        match self {
            CacheBox::Leaf => o is Leaf,
            CacheBox::Branch(v) => {
                &&& o is Branch
                &&& v@.len() == o.entries().len()
                &&& forall|i: int| 0 <= i < v@.len() ==> has_match(o.entries(), #[trigger] v@[i])
            },
        }
    }
}

impl CacheBox {
    /// Whether `source` is a key of this node or of any node below it.
    pub fn contains(&self, source: &str) -> (r: bool)
        ensures
            r == self.holds(source@),
        decreases self,
    {
        match self {
            CacheBox::Leaf => false,
            CacheBox::Branch(v) => {
                let mut i: usize = 0;
                while i < v.len()
                    invariant
                        *self is Branch,
                        self->Branch_0 == *v,
                        0 <= i <= v@.len(),
                        forall|j: int|
                            0 <= j < i ==> !((#[trigger] v@[j]).0@ == source@ || v@[j].1.holds(
                                source@,
                            )),
                    decreases v@.len() - i,
                {
                    if str_eq(v[i].0.as_str(), source) {
                        return true;
                    }
                    proof {
                        assert(decreases_to!(*self => self->Branch_0));
                        assert(decreases_to!(*v => v[i as int]));
                        assert(decreases_to!(v[i as int] => v[i as int].1));
                    }
                    if v[i].1.contains(source) {
                        return true;
                    }
                    i = i + 1;
                }
                false
            },
        }
    }

    /// Whether any name of `set` is held somewhere in this node.
    pub fn contains_set(&self, set: &Vec<String>) -> (r: bool)
        ensures
            r == self.holds_any(set@),
    {
        let mut j: usize = 0;
        while j < set.len()
            invariant
                0 <= j <= set@.len(),
                forall|k: int| 0 <= k < j ==> !self.holds((#[trigger] set@[k])@),
            decreases set@.len() - j,
        {
            if self.contains(set[j].as_str()) {
                return true;
            }
            j = j + 1;
        }
        false
    }

    /// Binds `key` to a leaf in a branch; a leaf stays as it is.
    pub fn insert(&mut self, key: &str)
        ensures
            *old(self) is Leaf ==> *final(self) == *old(self),
            *old(self) is Branch ==> *final(self) is Branch && put_into(
                old(self).entries(),
                final(self).entries(),
                key@,
                CacheBox::Leaf,
            ),
            old(self).wf() ==> final(self).wf(),
    {
        self.bind(key, CacheBox::Leaf)
    }

    /// Binds `key` to `value` in a branch; a leaf stays as it is.
    pub fn bind(&mut self, key: &str, value: CacheBox)
        ensures
            *old(self) is Leaf ==> *final(self) == *old(self),
            *old(self) is Branch ==> *final(self) is Branch && put_into(
                old(self).entries(),
                final(self).entries(),
                key@,
                value,
            ),
            old(self).wf() && value.wf() ==> final(self).wf(),
    {
        match self {
            CacheBox::Leaf => {},
            CacheBox::Branch(v) => {
                match find_key(v, key) {
                    Some(i) => {
                        let e = &mut v[i];
                        e.1 = value;
                        proof {
                            assert(v@ == old(self).entries().update(i as int, (old(self).entries()[i as int].0, value)));
                        }
                    },
                    None => {
                        v.push((key.to_owned(), value));
                        proof {
                            assert(v@.drop_last() =~= old(self).entries());
                        }
                    },
                }
            },
        }
    }

    /// Binds `key` to a fresh empty branch and hands that branch out for filling; a leaf
    /// stays as it is and gives nothing.
    pub fn insert_cache(&mut self, key: &str) -> (r: Option<&mut CacheBox>)
        ensures
            *old(self) is Leaf ==> r is None && *final(self) == *old(self),
            *old(self) is Branch ==> {
                &&& r is Some
                &&& *r.unwrap() is Branch
                &&& r.unwrap().entries().len() == 0
                &&& *final(self) is Branch
                &&& put_into(old(self).entries(), final(self).entries(), key@, *final(r.unwrap()))
                &&& old(self).wf() && final(r.unwrap()).wf() ==> final(self).wf()
            },
    {
        match self {
            CacheBox::Leaf => None,
            CacheBox::Branch(v) => {
                let i = match find_key(v, key) {
                    Some(i) => {
                        let e = &mut v[i];
                        e.1 = CacheBox::Branch(Vec::new());
                        i
                    },
                    None => {
                        v.push((key.to_owned(), CacheBox::Branch(Vec::new())));
                        v.len() - 1
                    },
                };
                let ghost mid = v@;
                proof {
                    let o = old(self).entries();
                    if i < o.len() {
                        assert forall|x: CacheBox|
                            mid.update(i as int, (mid[i as int].0, x)) == #[trigger] o.update(
                                i as int,
                                (o[i as int].0, x),
                            ) by {
                            assert(mid.update(i as int, (mid[i as int].0, x)) =~= o.update(
                                i as int,
                                (o[i as int].0, x),
                            ));
                        }
                    } else {
                        assert forall|x: CacheBox|
                            (#[trigger] mid.update(i as int, (mid[i as int].0, x))).drop_last() == o by {
                            assert(mid.update(i as int, (mid[i as int].0, x)).drop_last() =~= o);
                        }
                    }
                }
                proof {
                    let o = old(self).entries();
                    if old(self).wf() {
                        assert forall|x: CacheBox| x.wf() implies {
                            let n = #[trigger] mid.update(i as int, (mid[i as int].0, x));
                            unique_keys(n) && forall|j: int| 0 <= j < n.len() ==> (#[trigger] n[j]).1.wf()
                        } by {
                            let n = mid.update(i as int, (mid[i as int].0, x));
                            if i < o.len() {
                                assert(n == o.update(i as int, (o[i as int].0, x)));
                            } else {
                                assert(n.drop_last() == o);
                            }
                            lemma_put_wf(o, n, key@, x);
                        }
                    }
                }
                Some(value_mut(v, i))
            },
        }
    }
}

impl CacheBox {
    /// Inserts the pairs one after the other into a new branch; no pairs give a leaf.
    pub fn from_pairs(pairs: Vec<(&str, CacheBox)>) -> (r: CacheBox)
        ensures
            built_from_pairs(pairs@, r),
            (forall|i: int| 0 <= i < pairs@.len() ==> (#[trigger] pairs@[i]).1.wf()) ==> r.wf(),
    {
        if pairs.len() == 0 {
            return CacheBox::Leaf;
        }
        let ghost all = pairs@;
        let mut rest = pairs;
        let mut r = CacheBox::Branch(Vec::new());
        let total = rest.len();
        let mut k: usize = 0;
        assert(binds_pairs(all.take(0), r.entries()));
        while rest.len() > 0
            invariant
                total == all.len(),
                r is Branch,
                0 <= k <= all.len(),
                rest@ == all.skip(k as int),
                binds_pairs(all.take(k as int), r.entries()),
                (forall|i: int| 0 <= i < all.len() ==> (#[trigger] all[i]).1.wf()) ==> r.wf(),
            decreases rest@.len(),
        {
            let (key, value) = rest.remove(0);
            assert(all[k as int] == (key, value));
            let ghost before = r.entries();
            r.bind(key, value);
            proof {
                lemma_binds_push(all.take(k as int), (key, value), before, r.entries());
                assert(all.take(k as int).push((key, value)) =~= all.take(k + 1));
            }
            k = k + 1;
            assert(rest@ =~= all.skip(k as int));
        }
        assert(all.take(k as int) =~= all);
        r
    }
}

impl<const N: usize> From<[(&str, CacheBox); N]> for CacheBox {
    /// Inserts the pairs one after the other into a new branch; no pairs give a leaf.
    fn from(arr: [(&str, CacheBox); N]) -> CacheBox {
        CacheBox::from_pairs(array_to_vec(arr))
    }
}

impl<const N: usize> vstd::std_specs::convert::FromSpecImpl<[(&str, CacheBox); N]> for CacheBox {
    /// The keys of the result are owned copies of the pairs' keys, which no spec value
    /// pins down; `from_pairs` states what the result holds.
    open spec fn obeys_from_spec() -> bool {
        false
    }

    open spec fn from_spec(arr: [(&str, CacheBox); N]) -> CacheBox {
        choose|r: CacheBox| built_from_pairs(arr@, r)
    }
}


impl CacheBox {
    /// Whether the two trees have the same keys at every level, whatever the order.
    pub fn same_as(&self, o: &CacheBox) -> (r: bool)
        ensures
            r == self.same(*o),
        decreases self, 1nat,
    {
        match self {
            CacheBox::Leaf => match o {
                CacheBox::Leaf => true,
                CacheBox::Branch(_) => false,
            },
            CacheBox::Branch(v) => {
                let w = match o {
                    CacheBox::Leaf => {
                        return false;
                    },
                    CacheBox::Branch(w) => w,
                };
                if v.len() != w.len() {
                    return false;
                }
                let mut i: usize = 0;
                while i < v.len()
                    invariant
                        *self is Branch,
                        self->Branch_0 == *v,
                        *o is Branch,
                        o->Branch_0 == *w,
                        v@.len() == w@.len(),
                        0 <= i <= v@.len(),
                        forall|a: int| 0 <= a < i ==> has_match(w@, #[trigger] v@[a]),
                    decreases v@.len() - i,
                {
                    proof {
                        assert(decreases_to!(*self => self->Branch_0));
                        assert(decreases_to!(*v => v[i as int]));
                    }
                    if !Self::find_same(w, &v[i]) {
                        return false;
                    }
                    i = i + 1;
                }
                assert(o.entries() == w@);
                true
            },
        }
    }
}

impl CacheBox {
    /// Whether some entry of `w` has the key of `e` and a tree the same as that of `e`.
    fn find_same(w: &Vec<(String, CacheBox)>, e: &(String, CacheBox)) -> (r: bool)
        ensures
            r == has_match(w@, *e),
        decreases *e, 2nat,
    {
        let mut j: usize = 0;
        while j < w.len()
            invariant
                0 <= j <= w@.len(),
                forall|b: int| 0 <= b < j ==> !((#[trigger] w@[b]).0@ == e.0@ && e.1.same(w@[b].1)),
            decreases w@.len() - j,
        {
            proof {
                assert(decreases_to!(*e => e.1));
            }
            if str_eq(e.0.as_str(), w[j].0.as_str()) && e.1.same_as(&w[j].1) {
                return true;
            }
            j = j + 1;
        }
        false
    }
}

impl PartialEq for CacheBox {
    /// Equality of the trees as maps: the order of entries does not count.
    fn eq(&self, other: &CacheBox) -> (r: bool) {
        self.same_as(other)
    }
}

impl vstd::std_specs::cmp::PartialEqSpecImpl for CacheBox {
    open spec fn obeys_eq_spec() -> bool {
        true
    }

    open spec fn eq_spec(&self, other: &CacheBox) -> bool {
        self.same(*other)
    }
}

/// A walk over the entries of a node, by shared reference.
pub struct Iter<'a> {
    inner: Item<'a>,
}

/// Where an `Iter` stands: the entries of a branch, if any, and the next position.
pub struct Item<'a> {
    opt: Option<&'a Vec<(String, CacheBox)>>,
    pos: usize,
}

impl<'a> Iter<'a> {
    /// The entries still to come.
    pub closed spec fn rest(self) -> Seq<(String, CacheBox)> {
        match self.inner.opt {
            None => Seq::empty(),
            Some(v) => if self.inner.pos <= v@.len() {
                v@.subrange(self.inner.pos as int, v@.len() as int)
            } else {
                Seq::empty()
            },
        }
    }

    /// The next entry, as a key and the node under it.
    pub fn next(&mut self) -> (r: Option<(&'a String, &'a CacheBox)>)
        ensures
            old(self).rest().len() == 0 ==> r is None && final(self).rest() == old(self).rest(),
            old(self).rest().len() > 0 ==> {
                &&& r is Some
                &&& *r.unwrap().0 == old(self).rest()[0].0
                &&& *r.unwrap().1 == old(self).rest()[0].1
                &&& final(self).rest() == old(self).rest().drop_first()
            },
    {
        match self.inner.opt {
            None => None,
            Some(v) => {
                if self.inner.pos < v.len() {
                    let e = &v[self.inner.pos];
                    self.inner.pos = self.inner.pos + 1;
                    proof {
                        assert(self.rest() =~= old(self).rest().drop_first());
                    }
                    Some((&e.0, &e.1))
                } else {
                    None
                }
            },
        }
    }
}

/// A walk over the entries of a node that hands each node out for change in place.
pub struct IterMut<'a> {
    inner: ItemMut<'a>,
}

/// Where an `IterMut` stands: the entries of a branch, if any, and the next position.
pub struct ItemMut<'a> {
    opt: Option<&'a mut Vec<(String, CacheBox)>>,
    pos: usize,
}

impl<'a> IterMut<'a> {
    /// The entries still to come.
    pub closed spec fn rest(self) -> Seq<(String, CacheBox)> {
        match self.inner.opt {
            None => Seq::empty(),
            Some(v) => if self.inner.pos <= v@.len() {
                v@.subrange(self.inner.pos as int, v@.len() as int)
            } else {
                Seq::empty()
            },
        }
    }

    /// The next entry, as its key and its node, which may be changed in place.
    pub fn next(&mut self) -> (r: Option<(&String, &mut CacheBox)>)
        ensures
            old(self).rest().len() == 0 ==> r is None,
            old(self).rest().len() > 0 ==> {
                &&& r is Some
                &&& *r.unwrap().0 == old(self).rest()[0].0
                &&& *r.unwrap().1 == old(self).rest()[0].1
            },
    {
        let pos = self.inner.pos;
        match &mut self.inner.opt {
            None => None,
            Some(v) => {
                if pos < v.len() {
                    self.inner.pos = pos + 1;
                    let e = &mut v[pos];
                    Some((&e.0, &mut e.1))
                } else {
                    None
                }
            },
        }
    }
}

/// A walk over the entries of a node that takes them apart.
pub struct IntoIter {
    inner: IntoIterItem,
}

/// What an `IntoIter` still holds.
pub struct IntoIterItem {
    opt: Option<Vec<(String, CacheBox)>>,
}

impl IntoIter {
    /// The entries still to come.
    pub closed spec fn rest(self) -> Seq<(String, CacheBox)> {
        match self.inner.opt {
            None => Seq::empty(),
            Some(v) => v@,
        }
    }

    /// The next entry, moved out.
    pub fn next(&mut self) -> (r: Option<(String, CacheBox)>)
        ensures
            old(self).rest().len() == 0 ==> r is None && final(self).rest() == old(self).rest(),
            old(self).rest().len() > 0 ==> r == Some(old(self).rest()[0]) && final(self).rest()
                == old(self).rest().drop_first(),
    {
        match &mut self.inner.opt {
            None => None,
            Some(v) => {
                if v.len() > 0 {
                    let e = v.remove(0);
                    proof {
                        assert(v@ =~= old(self).rest().drop_first());
                    }
                    Some(e)
                } else {
                    None
                }
            },
        }
    }
}

impl CacheBox {
    /// Walks the entries of this node; a leaf has none.
    pub fn iter(&self) -> (r: Iter<'_>)
        ensures
            r.rest() == self.entries(),
    {
        match self {
            CacheBox::Leaf => Iter { inner: Item { opt: None, pos: 0 } },
            CacheBox::Branch(v) => {
                let r = Iter { inner: Item { opt: Some(v), pos: 0 } };
                assert(r.rest() =~= self.entries());
                r
            },
        }
    }

    /// Walks the entries of this node, handing each node out for change in place.
    pub fn iter_mut(&mut self) -> (r: IterMut<'_>)
        ensures
            r.rest() == old(self).entries(),
            *old(self) is Leaf ==> *final(self) == *old(self),
            *old(self) is Branch ==> *final(self) is Branch,
    {
        match self {
            CacheBox::Leaf => IterMut { inner: ItemMut { opt: None, pos: 0 } },
            CacheBox::Branch(v) => {
                let ghost before = v@;
                let r = IterMut { inner: ItemMut { opt: Some(v), pos: 0 } };
                assert(r.rest() =~= before);
                r
            },
        }
    }

    /// Takes this node apart into its entries; a leaf has none.
    pub fn into_iter(self) -> (r: IntoIter)
        ensures
            r.rest() == self.entries(),
    {
        match self {
            CacheBox::Leaf => IntoIter { inner: IntoIterItem { opt: None } },
            CacheBox::Branch(v) => IntoIter { inner: IntoIterItem { opt: Some(v) } },
        }
    }
}

/// Binding a well-formed value in well-formed entries keeps them well formed.
proof fn lemma_put_wf(old: Seq<(String, CacheBox)>, new: Seq<(String, CacheBox)>, key: Seq<char>, value: CacheBox)
    requires
        unique_keys(old),
        forall|i: int| 0 <= i < old.len() ==> (#[trigger] old[i]).1.wf(),
        value.wf(),
        put_into(old, new, key, value),
    ensures
        unique_keys(new),
        forall|i: int| 0 <= i < new.len() ==> (#[trigger] new[i]).1.wf(),
{
    if !key_in(old, key) {
        assert forall|i: int| 0 <= i < old.len() implies (#[trigger] new[i]) == old[i] by {
            assert(new.drop_last()[i] == new[i]);
        }
        assert(new[new.len() - 1] == new.last());
    }
}

/// The value of entry `i`, handed out for change in place.
fn value_mut(v: &mut Vec<(String, CacheBox)>, i: usize) -> (r: &mut CacheBox)
    requires
        i < old(v)@.len(),
    ensures
        *r == old(v)@[i as int].1,
        final(v)@ == old(v)@.update(i as int, (old(v)@[i as int].0, *final(r))),
{
    let e = &mut v[i];
    &mut e.1
}

/// Position of the entry with key `key`, if there is one.
fn find_key(v: &Vec<(String, CacheBox)>, key: &str) -> (r: Option<usize>)
    ensures
        match r {
            Some(i) => i < v@.len() && v@[i as int].0@ == key@,
            None => !key_in(v@, key@),
        },
{
    let mut i: usize = 0;
    while i < v.len()
        invariant
            0 <= i <= v@.len(),
            forall|j: int| 0 <= j < i ==> (#[trigger] v@[j]).0@ != key@,
        decreases v@.len() - i,
    {
        if str_eq(v[i].0.as_str(), key) {
            return Some(i);
        }
        i = i + 1;
    }
    None
}

} // verus!
