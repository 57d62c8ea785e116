//! The ordered map: key-value pairs stored in the tree engine, ordered and
//! compared by key alone, so that at most one entry per key survives every
//! insertion.

use vstd::prelude::*;
use core::cmp::Ordering;
use crate::avl::AVL;
use crate::iters::Decreasing;
use crate::iters::Increasing;
use crate::iters::Levels;
use crate::keyed::Keyed;
use crate::keyed::Probe;
use crate::node::gt_key;
use crate::node::has_key;
use crate::node::inserted;
use crate::node::le_key;
use crate::node::lemma_inserted_key_unique;
use crate::node::lemma_inserted_multiset;

verus! {

/// A key and a value as one orderable unit: the tree orders, equates and
/// compares pairs by their key alone, so two pairs with equal keys are
/// interchangeable from its point of view.
pub struct Pair<K, V> {
    pub key: K,
    pub val: V,
}

impl<K: Keyed, V> Keyed for Pair<K, V> {
    open spec fn key(&self) -> int {
        self.key.key()
    }

    fn key_cmp(&self, other: &Self) -> (o: Ordering) {
        self.key.key_cmp(&other.key)
    }
}

/// A bare key probes a tree of pairs: the map searches and removes by key
/// without building a whole pair.
impl<K: Keyed, V> Probe<Pair<K, V>> for K {
    open spec fn probe_key(&self) -> int {
        self.key()
    }

    fn probe_cmp(&self, item: &Pair<K, V>) -> (o: Ordering) {
        self.key_cmp(&item.key)
    }
}

/// No two elements share a key.
pub open spec fn distinct_by_key<T: Keyed>(s: Seq<T>) -> bool {
    forall|i: int, j: int|
        0 <= i < j < s.len() ==> #[trigger] s[i].key() != #[trigger] s[j].key()
}

/// Overwriting an element with one that carries the same key keeps the
/// keys pairwise distinct.
pub(crate) broadcast proof fn lemma_distinct_update<T: Keyed>(s: Seq<T>, i: int, x: T)
    requires
        distinct_by_key(s),
        0 <= i < s.len(),
        x.key() == s[i].key(),
    ensures
        #[trigger] distinct_by_key(s.update(i, x)),
{
    let u = s.update(i, x);
    assert forall|a: int, b: int| 0 <= a < b < u.len() implies
        #[trigger] u[a].key() != #[trigger] u[b].key() by {
        assert(s[a].key() != s[b].key());
        if a != i {
            assert(u[a] == s[a]);
        }
        if b != i {
            assert(u[b] == s[b]);
        }
    }
}

/// Inserting an element under a fresh key keeps the keys pairwise distinct.
pub(crate) proof fn lemma_inserted_distinct<T: Keyed>(s: Seq<T>, v: T)
    requires
        distinct_by_key(s),
        !has_key(s, v.key()),
    ensures
        distinct_by_key(inserted(s, v)),
{
    let k = v.key();
    let ple = le_key::<T>(k);
    let pgt = gt_key::<T>(k);
    let f1 = s.filter(ple);
    let f2 = s.filter(pgt);
    let ins = inserted(s, v);
    let c = f1.len() as int;
    lemma_inserted_key_unique(s, v);
    lemma_inserted_multiset(s, v);
    assert forall|j: int| 0 <= j < ins.len() && j != c implies
        s.contains(#[trigger] ins[j]) by {
        if j < c {
            assert(ins[j] == f1[j]);
            assert(f1.contains(f1[j]));
            s.lemma_filter_contains_rev(ple, f1[j]);
        } else {
            assert(ins[j] == f2[j - c - 1]);
            assert(f2.contains(f2[j - c - 1]));
            s.lemma_filter_contains_rev(pgt, f2[j - c - 1]);
        }
    }
    assert(s.no_duplicates()) by {
        assert forall|a: int, b: int| 0 <= a < s.len() && 0 <= b < s.len() && a != b
            implies s[a] != s[b] by {
            if a < b {
                assert(s[a].key() != s[b].key());
            } else {
                assert(s[b].key() != s[a].key());
            }
        }
    }
    s.lemma_multiset_has_no_duplicates();
    s.to_multiset_ensures();
    ins.to_multiset_ensures();
    assert forall|i: int, j: int| 0 <= i < j < ins.len() implies
        #[trigger] ins[i].key() != #[trigger] ins[j].key() by {
        if ins[i].key() == ins[j].key() {
            if ins[i].key() == k {
                assert(i == c && j == c);
            } else {
                assert(i != c && j != c);
                assert(s.contains(ins[i]));
                assert(s.contains(ins[j]));
                let w1 = choose|w: int| 0 <= w < s.len() && s[w] == ins[i];
                let w2 = choose|w: int| 0 <= w < s.len() && s[w] == ins[j];
                assert(s[w1].key() == s[w2].key());
                if w1 != w2 {
                    if w1 < w2 {
                        assert(s[w1].key() != s[w2].key());
                    } else {
                        assert(s[w2].key() != s[w1].key());
                    }
                }
                let e = ins[i];
                assert(ins[j] == e);
                ins.remove_ensures(i);
                ins.remove(i).to_multiset_ensures();
                assert(ins.remove(i)[j - 1] == e);
                assert(ins.remove(i).contains(e));
                assert(ins.remove(i).to_multiset() == ins.to_multiset().remove(e));
                assert(ins.remove(i).to_multiset().count(e) > 0);
                assert(ins.to_multiset().count(e) >= 2);
                assert(e != v);
                assert(ins.to_multiset().count(e) == s.to_multiset().count(e));
                assert(s.to_multiset().contains(e));
                assert(s.to_multiset().count(e) == 1);
                assert(false);
            }
        }
    }
}

/// A thin ordered key-value map over the tree engine: its state is the
/// key-sorted sequence of its pairs, with pairwise distinct keys.
pub struct BTreeMap<K: Keyed, V> {
    avl: AVL<Pair<K, V>>,
}

impl<K: Keyed, V> View for BTreeMap<K, V> {
    type V = Seq<Pair<K, V>>;

    closed spec fn view(&self) -> Seq<Pair<K, V>> {
        self.avl@
    }
}

impl<K: Keyed, V> BTreeMap<K, V> {
    /// Well-formed: the underlying tree is well-formed and no two entries
    /// share a key.
    pub closed spec fn wf(&self) -> bool {
        &&& self.avl.wf()
        &&& distinct_by_key(self@)
    }

    /// The real height of the underlying tree.
    pub closed spec fn height_spec(&self) -> int {
        self.avl.height_spec()
    }

    /// A well-formed map never holds two entries with one key: the entry a
    /// lookup finds is the only one, and the value an upsert leaves behind
    /// is the one every later lookup sees.
    pub proof fn lemma_distinct(&self)
        requires
            self.wf(),
        ensures
            distinct_by_key(self@),
    {
    }

    /// The entries of a well-formed map are sorted by key.
    pub proof fn lemma_sorted(&self)
        requires
            self.wf(),
        ensures
            crate::node::sorted_by_key(self@),
    {
        self.avl.lemma_sorted();
    }

    /// Creates an empty map.
    pub fn new() -> (m: Self)
        ensures
            m.wf(),
            m@ == Seq::<Pair<K, V>>::empty(),
    {
        let m = BTreeMap { avl: AVL::new() };
        proof {
            assert(distinct_by_key(m@));
        }
        m
    }

    /// The underlying tree, for inspection.
    pub fn avl(&self) -> (t: &AVL<Pair<K, V>>)
        requires
            self.wf(),
        ensures
            t.wf(),
            t@ == self@,
    {
        &self.avl
    }

    /// Whether the map holds no entry.
    pub fn is_empty(&self) -> (r: bool)
        requires
            self.wf(),
        ensures
            r == (self@.len() == 0),
    {
        self.avl.is_empty()
    }

    /// The number of entries.
    pub fn len(&self) -> (n: usize)
        requires
            self.wf(),
        ensures
            n == self@.len(),
    {
        self.avl.len()
    }

    /// Whether some entry's key equals `key`.
    pub fn contains_key(&self, key: &K) -> (r: bool)
        requires
            self.wf(),
        ensures
            r == has_key(self@, key.key()),
    {
        self.avl.contains_by(key)
    }

    /// Remove and return the entry with this key, if any; afterwards no
    /// entry carries the key.
    pub fn remove(&mut self, key: &K) -> (r: Option<Pair<K, V>>)
        requires
            old(self).wf(),
        ensures
            final(self).wf(),
            r is Some <==> has_key(old(self)@, key.key()),
            r is None ==> *final(self) == *old(self),
            r matches Some(p) ==> p.key() == key.key() && exists|i: int|
                0 <= i < old(self)@.len() && #[trigger] old(self)@[i] == p
                && final(self)@ == old(self)@.remove(i),
            !has_key(final(self)@, key.key()),
            final(self)@.len() == old(self)@.len() - (if r is Some { 1int } else { 0 }),
    {
        let r = self.avl.remove_by(key);
        proof {
            if r is Some {
                let p = r.unwrap();
                let i = choose|i: int|
                    0 <= i < old(self)@.len() && #[trigger] old(self)@[i] == p
                    && self@ == old(self)@.remove(i);
                old(self)@.remove_ensures(i);
                assert forall|a: int, b: int| 0 <= a < b < self@.len() implies
                    #[trigger] self@[a].key() != #[trigger] self@[b].key() by {
                    let a0: int = if a < i { a } else { a + 1 };
                    let b0: int = if b < i { b } else { b + 1 };
                    assert(self@[a] == old(self)@[a0]);
                    assert(self@[b] == old(self)@[b0]);
                }
                assert forall|j: int| 0 <= j < self@.len() implies
                    #[trigger] self@[j].key() != key.key() by {
                    let j0: int = if j < i { j } else { j + 1 };
                    assert(self@[j] == old(self)@[j0]);
                    assert(old(self)@[i].key() == key.key());
                    if j0 != i {
                        if j0 < i {
                            assert(old(self)@[j0].key() != old(self)@[i].key());
                        } else {
                            assert(old(self)@[i].key() != old(self)@[j0].key());
                        }
                    }
                }
            }
        }
        r
    }

    /// A reference to the value stored under this key, if any.
    pub fn get(&self, key: &K) -> (r: Option<&V>)
        requires
            self.wf(),
        ensures
            r is Some <==> has_key(self@, key.key()),
            r matches Some(v) ==> exists|i: int|
                0 <= i < self@.len() && #[trigger] self@[i].key() == key.key()
                && *v == self@[i].val,
    {
        match self.avl.get_by(key) {
            Some(p) => {
                proof {
                    let i = choose|i: int| 0 <= i < self@.len() && self@[i] == *p;
                    assert(self@[i].key() == key.key());
                }
                Some(&p.val)
            }
            None => None,
        }
    }

    /// A mutable reference to the value stored under this key, if any,
    /// together with the entry's position. The caller may change the value
    /// in place; the key stays as it is, so the map stays well-formed.
    pub fn get_mut<'a>(&'a mut self, key: &K) -> (r: (Option<&'a mut V>, Ghost<int>))
        requires
            old(self).wf(),
        ensures
            r.0 is None ==> !has_key(old(self)@, key.key()) && *final(self) == *old(self),
            r.0 matches Some(v) ==> {
                let i = r.1@;
                &&& 0 <= i < old(self)@.len()
                &&& old(self)@[i].key() == key.key()
                &&& old(self)@[i].val == *v
                &&& (final(self)@ =~= old(self)@.update(i, (Pair {
                    key: old(self)@[i].key,
                    val: *final(v),
                })))
                &&& final(self).wf()
            },
    {
        proof {
            broadcast use lemma_distinct_update;
        }
        let (r, g) = self.avl.get_mut_by(key);
        match r {
            Some(p) => {
                proof {
                    let i = g@;
                    assert(old(self)@[i] == *p);
                }
                (Some(&mut p.val), g)
            }
            None => (None, g),
        }
    }

    /// Insert a value under a key: a fresh key adds an entry, a key already
    /// present has its entry overwritten. Returns whether the key was new;
    /// room for one more entry is needed only when it is.
    pub fn insert(&mut self, key: K, val: V) -> (r: bool)
        requires
            old(self).wf(),
            !has_key(old(self)@, key.key()) ==> old(self)@.len() < usize::MAX,
        ensures
            final(self).wf(),
            r <==> !has_key(old(self)@, key.key()),
            r ==> final(self)@ == inserted(old(self)@, (Pair { key, val }))
                && final(self)@.len() == old(self)@.len() + 1,
            !r ==> exists|i: int|
                0 <= i < old(self)@.len() && #[trigger] old(self)@[i].key() == key.key()
                && final(self)@ == old(self)@.update(i, (Pair { key, val })),
            !r ==> final(self)@.len() == old(self)@.len(),
    {
        let entry = Pair { key, val };
        let ghost entry0 = entry;
        let r = self.avl.insert_distinct(entry);
        proof {
            if r {
                lemma_inserted_distinct(old(self)@, entry0);
            } else {
                let i = choose|i: int|
                    0 <= i < old(self)@.len()
                    && #[trigger] old(self)@[i].key() == entry0.key()
                    && self@ == old(self)@.update(i, entry0);
                assert forall|a: int, b: int| 0 <= a < b < self@.len() implies
                    #[trigger] self@[a].key() != #[trigger] self@[b].key() by {
                    assert(old(self)@[a].key() != old(self)@[b].key());
                    if a != i {
                        assert(self@[a] == old(self)@[a]);
                    }
                    if b != i {
                        assert(self@[b] == old(self)@[b]);
                    }
                }
            }
        }
        r
    }

    /// Ascending iterator over the entries, by key.
    pub fn iter(&self) -> (it: Increasing<Pair<K, V>>)
        requires
            self.wf(),
        ensures
            it.wf(),
            it.remaining() == self@,
    {
        self.avl.increasing()
    }

    /// Ascending iterator over the entries, by key.
    pub fn increasing(&self) -> (it: Increasing<Pair<K, V>>)
        requires
            self.wf(),
        ensures
            it.wf(),
            it.remaining() == self@,
    {
        self.avl.increasing()
    }

    /// Descending iterator over the entries, by key.
    pub fn decreasing(&self) -> (it: Decreasing<Pair<K, V>>)
        requires
            self.wf(),
        ensures
            it.wf(),
            it.remaining() == self@.reverse(),
    {
        self.avl.decreasing()
    }

    /// The keys, in ascending order.
    pub fn keys(&self) -> (ks: Vec<&K>)
        requires
            self.wf(),
        ensures
            ks@.len() == self@.len(),
            forall|i: int| 0 <= i < self@.len() ==> *(#[trigger] ks@[i]) == self@[i].key,
    {
        let mut it = self.avl.increasing();
        let mut ks: Vec<&K> = Vec::new();
        loop
            invariant
                it.wf(),
                ks@.len() <= self@.len(),
                it.remaining() == self@.skip(ks@.len() as int),
                forall|i: int| 0 <= i < ks@.len() ==> *(#[trigger] ks@[i]) == self@[i].key,
            ensures
                it.remaining().len() == 0,
                ks@.len() <= self@.len(),
                it.remaining() == self@.skip(ks@.len() as int),
                forall|i: int| 0 <= i < ks@.len() ==> *(#[trigger] ks@[i]) == self@[i].key,
            decreases it.remaining().len(),
        {
            let ghost n = ks@.len() as int;
            match it.next() {
                None => {
                    break;
                }
                Some(p) => {
                    proof {
                        assert(self@.skip(n)[0] == self@[n]);
                        assert(self@.skip(n).drop_first() =~= self@.skip(n + 1));
                    }
                    ks.push(&p.key);
                }
            }
        }
        proof {
            assert(self@.skip(ks@.len() as int).len() == 0);
        }
        ks
    }

    /// The values, in ascending key order.
    pub fn values(&self) -> (vs: Vec<&V>)
        requires
            self.wf(),
        ensures
            vs@.len() == self@.len(),
            forall|i: int| 0 <= i < self@.len() ==> *(#[trigger] vs@[i]) == self@[i].val,
    {
        let mut it = self.avl.increasing();
        let mut vs: Vec<&V> = Vec::new();
        loop
            invariant
                it.wf(),
                vs@.len() <= self@.len(),
                it.remaining() == self@.skip(vs@.len() as int),
                forall|i: int| 0 <= i < vs@.len() ==> *(#[trigger] vs@[i]) == self@[i].val,
            ensures
                it.remaining().len() == 0,
                vs@.len() <= self@.len(),
                it.remaining() == self@.skip(vs@.len() as int),
                forall|i: int| 0 <= i < vs@.len() ==> *(#[trigger] vs@[i]) == self@[i].val,
            decreases it.remaining().len(),
        {
            let ghost n = vs@.len() as int;
            match it.next() {
                None => {
                    break;
                }
                Some(p) => {
                    proof {
                        assert(self@.skip(n)[0] == self@[n]);
                        assert(self@.skip(n).drop_first() =~= self@.skip(n + 1));
                    }
                    vs.push(&p.val);
                }
            }
        }
        proof {
            assert(self@.skip(vs@.len() as int).len() == 0);
        }
        vs
    }

    /// The keys, in ascending order, by value; the map is consumed.
    pub fn into_keys(self) -> (ks: Vec<K>)
        requires
            self.wf(),
        ensures
            ks@.len() == self@.len(),
            forall|i: int| 0 <= i < self@.len() ==> #[trigger] ks@[i] == self@[i].key,
    {
        let ghost view0 = self@;
        let mut it = self.avl.into_increasing();
        let mut ks: Vec<K> = Vec::new();
        loop
            invariant
                it.wf(),
                ks@.len() <= view0.len(),
                it.remaining() == view0.skip(ks@.len() as int),
                forall|i: int| 0 <= i < ks@.len() ==> #[trigger] ks@[i] == view0[i].key,
            ensures
                it.remaining().len() == 0,
                ks@.len() <= view0.len(),
                it.remaining() == view0.skip(ks@.len() as int),
                forall|i: int| 0 <= i < ks@.len() ==> #[trigger] ks@[i] == view0[i].key,
            decreases it.remaining().len(),
        {
            let ghost n = ks@.len() as int;
            match it.next() {
                None => {
                    break;
                }
                Some(p) => {
                    proof {
                        assert(view0.skip(n)[0] == view0[n]);
                        assert(view0.skip(n).drop_first() =~= view0.skip(n + 1));
                    }
                    ks.push(p.key);
                }
            }
        }
        proof {
            assert(view0.skip(ks@.len() as int).len() == 0);
        }
        ks
    }

    /// The values, in ascending key order, by value; the map is consumed.
    pub fn into_values(self) -> (vs: Vec<V>)
        requires
            self.wf(),
        ensures
            vs@.len() == self@.len(),
            forall|i: int| 0 <= i < self@.len() ==> #[trigger] vs@[i] == self@[i].val,
    {
        let ghost view0 = self@;
        let mut it = self.avl.into_increasing();
        let mut vs: Vec<V> = Vec::new();
        loop
            invariant
                it.wf(),
                vs@.len() <= view0.len(),
                it.remaining() == view0.skip(vs@.len() as int),
                forall|i: int| 0 <= i < vs@.len() ==> #[trigger] vs@[i] == view0[i].val,
            ensures
                it.remaining().len() == 0,
                vs@.len() <= view0.len(),
                it.remaining() == view0.skip(vs@.len() as int),
                forall|i: int| 0 <= i < vs@.len() ==> #[trigger] vs@[i] == view0[i].val,
            decreases it.remaining().len(),
        {
            let ghost n = vs@.len() as int;
            match it.next() {
                None => {
                    break;
                }
                Some(p) => {
                    proof {
                        assert(view0.skip(n)[0] == view0[n]);
                        assert(view0.skip(n).drop_first() =~= view0.skip(n + 1));
                    }
                    vs.push(p.val);
                }
            }
        }
        proof {
            assert(view0.skip(vs@.len() as int).len() == 0);
        }
        vs
    }

    /// Breadth-first walk of the underlying tree.
    pub fn levels(&self) -> (it: Levels<Pair<K, V>>)
        requires
            self.wf(),
        ensures
            it.depth() == self.height_spec(),
    {
        self.avl.levels()
    }
}

} // verus!
