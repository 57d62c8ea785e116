//! The recursive tree cell and the balancing primitives.
//!
//! A node owns its two optional subtrees and caches the height of the
//! subtree rooted at it. The mathematical model of a subtree is its in-order
//! sequence of elements; well-formedness ties the cached heights to the real
//! ones, bounds the height difference of siblings by one (the AVL invariant)
//! and orders the elements by key (the search invariant).

use vstd::prelude::*;
use crate::keyed::Chooser;
use crate::keyed::cost_consistent;
use crate::keyed::Keyed;
use crate::keyed::Nearness;
use crate::keyed::Probe;
use crate::keyed::dist;

verus! {

/// Every element of `s` has a key at most `k`.
pub open spec fn all_le<T: Keyed>(s: Seq<T>, k: int) -> bool {
    forall|i: int| 0 <= i < s.len() ==> #[trigger] s[i].key() <= k
}

/// Every element of `s` has a key at least `k`.
pub open spec fn all_ge<T: Keyed>(s: Seq<T>, k: int) -> bool {
    forall|i: int| 0 <= i < s.len() ==> #[trigger] s[i].key() >= k
}

/// The keys of `s` are non-decreasing.
pub open spec fn sorted_by_key<T: Keyed>(s: Seq<T>) -> bool {
    forall|i: int, j: int|
        0 <= i <= j < s.len() ==> #[trigger] s[i].key() <= #[trigger] s[j].key()
}

/// Some element of `s` has key `k`.
pub open spec fn has_key<T: Keyed>(s: Seq<T>, k: int) -> bool {
    exists|i: int| 0 <= i < s.len() && #[trigger] s[i].key() == k
}

/// The predicate "has key at most `k`", as a value.
pub open spec fn le_key<T: Keyed>(k: int) -> spec_fn(T) -> bool {
    |x: T| x.key() <= k
}

/// The predicate "has key greater than `k`", as a value.
pub open spec fn gt_key<T: Keyed>(k: int) -> spec_fn(T) -> bool {
    |x: T| x.key() > k
}

/// The predicate "has key less than `k`", as a value.
pub open spec fn lt_key<T: Keyed>(k: int) -> spec_fn(T) -> bool {
    |x: T| x.key() < k
}

/// The in-order sequence after inserting `v` into `s`: `v` goes after every
/// element whose key is not greater than its own, and before the rest.
pub open spec fn inserted<T: Keyed>(s: Seq<T>, v: T) -> Seq<T> {
    s.filter(le_key(v.key())) + seq![v] + s.filter(gt_key(v.key()))
}

/// Filtering a sequence whose elements all satisfy the predicate keeps it.
pub(crate) proof fn lemma_filter_all_true<A>(s: Seq<A>, p: spec_fn(A) -> bool)
    requires
        forall|i: int| 0 <= i < s.len() ==> p(#[trigger] s[i]),
    ensures
        s.filter(p) == s,
    decreases s.len(),
{
    reveal(Seq::filter);
    if s.len() > 0 {
        lemma_filter_all_true(s.drop_last(), p);
        assert(s.drop_last().push(s.last()) =~= s);
    }
}

/// Filtering a sequence whose elements all refute the predicate empties it.
pub(crate) proof fn lemma_filter_all_false<A>(s: Seq<A>, p: spec_fn(A) -> bool)
    requires
        forall|i: int| 0 <= i < s.len() ==> !p(#[trigger] s[i]),
    ensures
        s.filter(p) == Seq::<A>::empty(),
    decreases s.len(),
{
    reveal(Seq::filter);
    if s.len() > 0 {
        lemma_filter_all_false(s.drop_last(), p);
    }
}

/// Filtering a one-element sequence.
pub(crate) proof fn lemma_filter_one<A>(v: A, p: spec_fn(A) -> bool)
    ensures
        p(v) ==> seq![v].filter(p) == seq![v],
        !p(v) ==> seq![v].filter(p) == Seq::<A>::empty(),
{
    reveal(Seq::filter);
    let s = seq![v];
    assert(s.drop_last() =~= Seq::<A>::empty());
    if p(v) {
        assert(Seq::<A>::empty().push(v) =~= s);
    } else {
        assert(Seq::<A>::empty().filter(p) =~= Seq::<A>::empty());
    }
}

/// A key occurs in an in-order decomposition where it occurs in one of the
/// parts.
pub(crate) proof fn lemma_has_key_split<T: Keyed>(l: Seq<T>, m: T, r: Seq<T>, k: int)
    ensures
        has_key(l + seq![m] + r, k) <==> (has_key(l, k) || m.key() == k || has_key(r, k)),
{
    let s = l + seq![m] + r;
    assert(s[l.len() as int] == m);
    if has_key(s, k) {
        let i = choose|i: int| 0 <= i < s.len() && #[trigger] s[i].key() == k;
        if i < l.len() {
            assert(l[i].key() == k);
        } else if i > l.len() {
            assert(r[i - l.len() - 1].key() == k);
        }
    }
    if has_key(l, k) {
        let i = choose|i: int| 0 <= i < l.len() && #[trigger] l[i].key() == k;
        assert(s[i].key() == k);
    }
    if has_key(r, k) {
        let i = choose|i: int| 0 <= i < r.len() && #[trigger] r[i].key() == k;
        assert(s[l.len() + 1 + i].key() == k);
    }
}

/// Inserting below a pivot: when `v` belongs left of `m`, inserting into the
/// whole in-order sequence is inserting into the left part.
pub(crate) proof fn lemma_inserted_left<T: Keyed>(l: Seq<T>, m: T, r: Seq<T>, v: T)
    requires
        v.key() < m.key(),
        all_ge(r, m.key()),
    ensures
        inserted(l + seq![m] + r, v) == inserted(l, v) + seq![m] + r,
{
    let ple = le_key::<T>(v.key());
    let pgt = gt_key::<T>(v.key());
    Seq::filter_distributes_over_add(l + seq![m], r, ple);
    Seq::filter_distributes_over_add(l, seq![m], ple);
    Seq::filter_distributes_over_add(l + seq![m], r, pgt);
    Seq::filter_distributes_over_add(l, seq![m], pgt);
    lemma_filter_one(m, ple);
    lemma_filter_one(m, pgt);
    lemma_filter_all_false(r, ple);
    lemma_filter_all_true(r, pgt);
    assert((l + seq![m] + r).filter(ple) =~= l.filter(ple));
    assert((l + seq![m] + r).filter(pgt) =~= l.filter(pgt) + seq![m] + r);
    assert(inserted(l + seq![m] + r, v) =~= inserted(l, v) + seq![m] + r);
}

/// Inserting at or above a pivot: when `v` belongs right of `m` (keys equal
/// or greater), inserting into the whole is inserting into the right part.
pub(crate) proof fn lemma_inserted_right<T: Keyed>(l: Seq<T>, m: T, r: Seq<T>, v: T)
    requires
        v.key() >= m.key(),
        all_le(l, m.key()),
    ensures
        inserted(l + seq![m] + r, v) == l + seq![m] + inserted(r, v),
{
    let ple = le_key::<T>(v.key());
    let pgt = gt_key::<T>(v.key());
    Seq::filter_distributes_over_add(l + seq![m], r, ple);
    Seq::filter_distributes_over_add(l, seq![m], ple);
    Seq::filter_distributes_over_add(l + seq![m], r, pgt);
    Seq::filter_distributes_over_add(l, seq![m], pgt);
    lemma_filter_one(m, ple);
    lemma_filter_one(m, pgt);
    lemma_filter_all_true(l, ple);
    lemma_filter_all_false(l, pgt);
    assert((l + seq![m] + r).filter(ple) =~= l + seq![m] + r.filter(ple));
    assert((l + seq![m] + r).filter(pgt) =~= r.filter(pgt));
    assert(inserted(l + seq![m] + r, v) =~= l + seq![m] + inserted(r, v));
}

/// Insertion respects key bounds that hold of both the sequence and the new
/// element.
pub(crate) proof fn lemma_inserted_bounds<T: Keyed>(s: Seq<T>, v: T, k: int)
    ensures
        all_le(s, k) && v.key() <= k ==> all_le(inserted(s, v), k),
        all_ge(s, k) && v.key() >= k ==> all_ge(inserted(s, v), k),
        inserted(s, v).len() == s.len() + 1,
{
    let ple = le_key::<T>(v.key());
    let pgt = gt_key::<T>(v.key());
    let f1 = s.filter(ple);
    let f2 = s.filter(pgt);
    let out = inserted(s, v);
    assert forall|i: int| 0 <= i < f1.len() implies s.contains(#[trigger] f1[i]) by {
        s.lemma_filter_pred(ple, i);
        assert(f1.contains(f1[i]));
        s.lemma_filter_contains_rev(ple, f1[i]);
    }
    assert forall|i: int| 0 <= i < f2.len() implies s.contains(#[trigger] f2[i]) by {
        s.lemma_filter_pred(pgt, i);
        assert(f2.contains(f2[i]));
        s.lemma_filter_contains_rev(pgt, f2[i]);
    }
    if all_le(s, k) && v.key() <= k {
        assert forall|i: int| 0 <= i < out.len() implies #[trigger] out[i].key() <= k by {
            if i < f1.len() {
                let j = choose|j: int| 0 <= j < s.len() && s[j] == f1[i];
                assert(s[j].key() <= k);
            } else if i > f1.len() {
                let e = f2[i - f1.len() - 1];
                let j = choose|j: int| 0 <= j < s.len() && s[j] == e;
                assert(s[j].key() <= k);
            }
        }
    }
    if all_ge(s, k) && v.key() >= k {
        assert forall|i: int| 0 <= i < out.len() implies #[trigger] out[i].key() >= k by {
            if i < f1.len() {
                let j = choose|j: int| 0 <= j < s.len() && s[j] == f1[i];
                assert(s[j].key() >= k);
            } else if i > f1.len() {
                let e = f2[i - f1.len() - 1];
                let j = choose|j: int| 0 <= j < s.len() && s[j] == e;
                assert(s[j].key() >= k);
            }
        }
    }
    lemma_filter_partition_len(s, v.key());
}

/// The elements with key at most `k` and those with key greater than `k`
/// together make up the whole sequence.
pub(crate) proof fn lemma_filter_partition_len<T: Keyed>(s: Seq<T>, k: int)
    ensures
        s.filter(le_key::<T>(k)).len() + s.filter(gt_key::<T>(k)).len() == s.len(),
    decreases s.len(),
{
    reveal(Seq::filter);
    if s.len() > 0 {
        lemma_filter_partition_len(s.drop_last(), k);
    }
}

/// The two key-bounded parts carry the whole sequence's elements, with
/// multiplicity.
pub(crate) proof fn lemma_filter_partition_multiset<T: Keyed>(s: Seq<T>, k: int)
    ensures
        s.filter(le_key::<T>(k)).to_multiset().add(s.filter(gt_key::<T>(k)).to_multiset())
            == s.to_multiset(),
    decreases s.len(),
{
    reveal(Seq::filter);
    let ple = le_key::<T>(k);
    let pgt = gt_key::<T>(k);
    if s.len() == 0 {
        s.to_multiset_ensures();
        vstd::multiset::lemma_multiset_empty_len(s.to_multiset());
        assert(s.filter(ple).to_multiset().add(s.filter(pgt).to_multiset())
            =~= s.to_multiset());
    } else {
        let dl = s.drop_last();
        lemma_filter_partition_multiset(dl, k);
        dl.to_multiset_ensures();
        dl.filter(ple).to_multiset_ensures();
        dl.filter(pgt).to_multiset_ensures();
        assert(s == dl.push(s.last()));
        assert(s.filter(ple).to_multiset().add(s.filter(pgt).to_multiset())
            =~= s.to_multiset());
    }
}

/// Inserting into an empty sequence yields just the new element.
pub proof fn lemma_inserted_on_empty<T: Keyed>(v: T)
    ensures
        inserted(Seq::<T>::empty(), v) == seq![v],
{
    lemma_filter_all_false(Seq::<T>::empty(), le_key::<T>(v.key()));
    lemma_filter_all_false(Seq::<T>::empty(), gt_key::<T>(v.key()));
    assert(inserted(Seq::<T>::empty(), v) =~= seq![v]);
}

/// Inserting adds exactly the new element to the tree's contents.
pub proof fn lemma_inserted_multiset<T: Keyed>(s: Seq<T>, v: T)
    ensures
        inserted(s, v).to_multiset() == s.to_multiset().insert(v),
{
    let ple = le_key::<T>(v.key());
    let pgt = gt_key::<T>(v.key());
    let f1 = s.filter(ple);
    let f2 = s.filter(pgt);
    lemma_filter_partition_multiset(s, v.key());
    vstd::seq_lib::lemma_multiset_commutative(f1 + seq![v], f2);
    vstd::seq_lib::lemma_multiset_commutative(f1, seq![v]);
    f1.to_multiset_ensures();
    Seq::<T>::empty().to_multiset_ensures();
    vstd::multiset::lemma_multiset_empty_len(Seq::<T>::empty().to_multiset());
    assert(seq![v] == Seq::<T>::empty().push(v));
    assert(inserted(s, v).to_multiset() =~= s.to_multiset().insert(v));
}

/// When no element of `s` carries the new element's key, the inserted
/// element is the only one with that key, and it stands at the end of the
/// elements with smaller keys.
pub(crate) proof fn lemma_inserted_key_unique<T: Keyed>(s: Seq<T>, v: T)
    requires
        !has_key(s, v.key()),
    ensures
        0 <= s.filter(le_key::<T>(v.key())).len() < inserted(s, v).len(),
        inserted(s, v)[s.filter(le_key::<T>(v.key())).len() as int] == v,
        forall|j: int|
            0 <= j < inserted(s, v).len() && j != s.filter(le_key::<T>(v.key())).len()
            ==> #[trigger] inserted(s, v)[j].key() != v.key(),
{
    let k = v.key();
    let ple = le_key::<T>(k);
    let pgt = gt_key::<T>(k);
    let f1 = s.filter(ple);
    let f2 = s.filter(pgt);
    let ins = inserted(s, v);
    let c = f1.len() as int;
    assert(ins[c] == v);
    assert forall|j: int| 0 <= j < ins.len() && j != c implies
        #[trigger] ins[j].key() != k by {
        if j < c {
            s.lemma_filter_pred(ple, j);
            assert(f1.contains(f1[j]));
            s.lemma_filter_contains_rev(ple, f1[j]);
            let w = choose|w: int| 0 <= w < s.len() && s[w] == f1[j];
            assert(s[w].key() != k);
        } else {
            s.lemma_filter_pred(pgt, j - c - 1);
        }
    }
}

/// The least number of elements a well-formed subtree of a given height can
/// hold: one more than the two smallest admissible subtrees together.
pub open spec fn min_count(h: int) -> int
    decreases h,
{
    if h <= 0 {
        0
    } else if h == 1 {
        1
    } else {
        1 + min_count(h - 1) + min_count(h - 2)
    }
}

pub(crate) proof fn lemma_min_count_mono(a: int, b: int)
    requires
        a <= b,
    ensures
        min_count(a) <= min_count(b),
    decreases b,
{
    if b > a && b > 1 {
        lemma_min_count_mono(a, b - 1);
        lemma_min_count_mono(b - 2, b - 1);
        if b - 1 >= 0 {
            lemma_min_count_nonneg(b - 2);
        }
    }
}

pub(crate) proof fn lemma_min_count_nonneg(h: int)
    ensures
        min_count(h) >= 0,
    decreases h,
{
    if h > 1 {
        lemma_min_count_nonneg(h - 1);
        lemma_min_count_nonneg(h - 2);
    }
}

/// The most elements any tree of height `h` can hold: a full binary tree,
/// with every level filled.
pub open spec fn max_count(h: int) -> int
    decreases h,
{
    if h <= 0 {
        0
    } else {
        1 + 2 * max_count(h - 1)
    }
}

pub(crate) proof fn lemma_max_count_mono(a: int, b: int)
    requires
        a <= b,
    ensures
        max_count(a) <= max_count(b),
    decreases b,
{
    if b > a && b > 0 {
        lemma_max_count_mono(a, b - 1);
        if a <= b - 1 {
            lemma_max_count_nonneg(b - 1);
        }
    }
}

pub(crate) proof fn lemma_max_count_nonneg(h: int)
    ensures
        max_count(h) >= 0,
    decreases h,
{
    if h > 0 {
        lemma_max_count_nonneg(h - 1);
    }
}

pub(crate) struct Node<T: Keyed> {
    pub(crate) height: usize,
    pub(crate) val: T,
    pub(crate) left: Option<Box<Node<T>>>,
    pub(crate) right: Option<Box<Node<T>>>,
}

impl<T: Keyed> Node<T> {
    /// The in-order sequence of an optional subtree.
    pub(crate) open spec fn seq_of(o: Option<Box<Node<T>>>) -> Seq<T>
        decreases o,
    {
        match o {
            None => Seq::empty(),
            Some(n) => n.seq(),
        }
    }

    /// The in-order sequence of the subtree rooted at this node.
    pub(crate) open spec fn seq(self) -> Seq<T>
        decreases self,
    {
        Node::seq_of(self.left) + seq![self.val] + Node::seq_of(self.right)
    }

    /// The real height of an optional subtree; an absent subtree has height 0.
    pub(crate) open spec fn height_of(o: Option<Box<Node<T>>>) -> int
        decreases o,
    {
        match o {
            None => 0,
            Some(n) => n.hgt(),
        }
    }

    /// The real height of the subtree rooted at this node.
    pub(crate) open spec fn hgt(self) -> int
        decreases self,
    {
        1 + if Node::height_of(self.left) >= Node::height_of(self.right) {
            Node::height_of(self.left)
        } else {
            Node::height_of(self.right)
        }
    }

    pub(crate) open spec fn wf_of(o: Option<Box<Node<T>>>) -> bool
        decreases o,
    {
        match o {
            None => true,
            Some(n) => n.wf(),
        }
    }

    /// Well-formedness: subtrees well-formed, cached height correct, sibling
    /// heights within one of each other, and elements ordered around the root.
    pub(crate) open spec fn wf(self) -> bool
        decreases self,
    {
        &&& Node::wf_of(self.left)
        &&& Node::wf_of(self.right)
        &&& self.height as int == self.hgt()
        &&& Node::height_of(self.left) <= Node::height_of(self.right) + 1
        &&& Node::height_of(self.right) <= Node::height_of(self.left) + 1
        &&& all_le(Node::seq_of(self.left), self.val.key())
        &&& all_ge(Node::seq_of(self.right), self.val.key())
    }

    /// The real height of a well-formed subtree is at most its element count.
    pub(crate) proof fn lemma_height_le_len(o: Option<Box<Node<T>>>)
        requires
            Node::wf_of(o),
        ensures
            0 <= Node::height_of(o) <= Node::seq_of(o).len(),
        decreases o,
    {
        if let Some(n) = o {
            Node::lemma_height_le_len(n.left);
            Node::lemma_height_le_len(n.right);
        }
    }

    /// The AVL balance invariant keeps the tree dense: a well-formed
    /// subtree of height `h` holds at least `min_count(h)` elements.
    pub(crate) proof fn lemma_min_count_of(o: Option<Box<Node<T>>>)
        requires
            Node::wf_of(o),
        ensures
            Node::seq_of(o).len() >= min_count(Node::height_of(o)),
        decreases o,
    {
        if let Some(n) = o {
            Node::lemma_min_count_of(n.left);
            Node::lemma_min_count_of(n.right);
            let hl = Node::height_of(n.left);
            let hr = Node::height_of(n.right);
            let h = n.hgt();
            assert(Node::seq_of(o).len()
                == Node::seq_of(n.left).len() + 1 + Node::seq_of(n.right).len());
            if hl >= hr {
                lemma_min_count_mono(h - 1, hl);
                lemma_min_count_mono(h - 2, hr);
            } else {
                lemma_min_count_mono(h - 1, hr);
                lemma_min_count_mono(h - 2, hl);
            }
        }
    }

    /// No tree of a given height can hold more elements than the full
    /// binary tree of that height.
    pub(crate) proof fn lemma_max_count_of(o: Option<Box<Node<T>>>)
        requires
            Node::wf_of(o),
        ensures
            Node::seq_of(o).len() <= max_count(Node::height_of(o)),
        decreases o,
    {
        if let Some(n) = o {
            Node::lemma_max_count_of(n.left);
            Node::lemma_max_count_of(n.right);
            let hl = Node::height_of(n.left);
            let hr = Node::height_of(n.right);
            let h = n.hgt();
            assert(Node::seq_of(o).len()
                == Node::seq_of(n.left).len() + 1 + Node::seq_of(n.right).len());
            lemma_max_count_mono(hl, h - 1);
            lemma_max_count_mono(hr, h - 1);
        }
    }

    /// The in-order sequence of a well-formed subtree is sorted by key.
    pub(crate) proof fn lemma_wf_sorted(o: Option<Box<Node<T>>>)
        requires
            Node::wf_of(o),
        ensures
            sorted_by_key(Node::seq_of(o)),
        decreases o,
    {
        if let Some(n) = o {
            Node::lemma_wf_sorted(n.left);
            Node::lemma_wf_sorted(n.right);
            let l = Node::seq_of(n.left);
            let r = Node::seq_of(n.right);
            let s = n.seq();
            assert forall|i: int, j: int| 0 <= i <= j < s.len() implies
                #[trigger] s[i].key() <= #[trigger] s[j].key() by {
                if i < l.len() {
                    assert(s[i] == l[i]);
                }
                if j < l.len() {
                    assert(s[j] == l[j]);
                }
                if i > l.len() {
                    assert(s[i] == r[i - l.len() - 1]);
                }
                if j > l.len() {
                    assert(s[j] == r[j - l.len() - 1]);
                }
            }
        }
    }

    /// The cached height field agrees with the real height at the root of
    /// `o`; nothing is said about the nodes below.
    pub(crate) open spec fn cached_ok(o: Option<Box<Node<T>>>) -> bool {
        match o {
            None => true,
            Some(n) => n.height as int == n.hgt(),
        }
    }

    /// Splitting a key bound over an in-order decomposition.
    pub(crate) proof fn lemma_bounds_split(l: Seq<T>, v: T, r: Seq<T>, k: int)
        ensures
            all_le(l + seq![v] + r, k) <==> (all_le(l, k) && v.key() <= k && all_le(r, k)),
            all_ge(l + seq![v] + r, k) <==> (all_ge(l, k) && v.key() >= k && all_ge(r, k)),
    {
        let s = l + seq![v] + r;
        assert(s[l.len() as int] == v);
        assert forall|i: int| 0 <= i < l.len() implies s[i] == l[i] by {}
        assert forall|i: int| 0 <= i < r.len() implies s[l.len() + 1 + i] == r[i] by {}
        if all_le(s, k) {
            assert forall|i: int| 0 <= i < l.len() implies #[trigger] l[i].key() <= k by {
                assert(s[i].key() <= k);
            }
            assert forall|i: int| 0 <= i < r.len() implies #[trigger] r[i].key() <= k by {
                assert(s[l.len() + 1 + i].key() <= k);
            }
        }
        if all_le(l, k) && v.key() <= k && all_le(r, k) {
            assert forall|i: int| 0 <= i < s.len() implies #[trigger] s[i].key() <= k by {
                if i < l.len() {
                    assert(s[i] == l[i]);
                } else if i > l.len() {
                    assert(s[i] == r[i - l.len() - 1]);
                }
            }
        }
        if all_ge(s, k) {
            assert forall|i: int| 0 <= i < l.len() implies #[trigger] l[i].key() >= k by {
                assert(s[i].key() >= k);
            }
            assert forall|i: int| 0 <= i < r.len() implies #[trigger] r[i].key() >= k by {
                assert(s[l.len() + 1 + i].key() >= k);
            }
        }
        if all_ge(l, k) && v.key() >= k && all_ge(r, k) {
            assert forall|i: int| 0 <= i < s.len() implies #[trigger] s[i].key() >= k by {
                if i < l.len() {
                    assert(s[i] == l[i]);
                } else if i > l.len() {
                    assert(s[i] == r[i - l.len() - 1]);
                }
            }
        }
    }

    /// A fresh leaf holding `val`.
    pub(crate) fn new(val: T) -> (n: Node<T>)
        ensures
            n.wf(),
            n.seq() == seq![val],
            n.hgt() == 1,
            n.val == val,
    {
        let n = Node { height: 1, val, left: None, right: None };
        proof {
            assert(n.seq() =~= seq![n.val]);
        }
        n
    }

    /// The cached height of an optional subtree.
    pub(crate) fn opt_height(o: &Option<Box<Node<T>>>) -> (h: usize)
        requires
            Node::cached_ok(*o),
        ensures
            h as int == Node::height_of(*o),
    {
        match o {
            Some(n) => n.height,
            None => 0,
        }
    }

    /// Recompute this node's cached height from its children's cached
    /// heights; to be called after any structural change below the node.
    pub(crate) fn update_height(&mut self)
        requires
            Node::cached_ok(old(self).left),
            Node::cached_ok(old(self).right),
            Node::height_of(old(self).left) < usize::MAX,
            Node::height_of(old(self).right) < usize::MAX,
        ensures
            final(self).val == old(self).val,
            final(self).left == old(self).left,
            final(self).right == old(self).right,
            final(self).height as int == final(self).hgt(),
    {
        let hl = Node::opt_height(&self.left);
        let hr = Node::opt_height(&self.right);
        self.height = 1 + if hl >= hr { hl } else { hr };
    }

    /// Left rotation: the right child becomes the root of the subtree, and
    /// the old root, keeping its left subtree, adopts the right child's left
    /// subtree. Heights of the two rearranged nodes are recomputed, the old
    /// root's first. Without a right child nothing moves.
    pub(crate) fn rotate_left(n: Box<Node<T>>) -> (r: Box<Node<T>>)
        requires
            n.right is Some ==> Node::cached_ok(n.left)
                && Node::cached_ok(n.right.unwrap().left)
                && Node::cached_ok(n.right.unwrap().right)
                && Node::height_of(n.left) <= usize::MAX - 2
                && Node::height_of(n.right.unwrap().left) <= usize::MAX - 2
                && Node::height_of(n.right.unwrap().right) <= usize::MAX - 2,
        ensures
            n.right is None ==> r == n,
            n.right is Some ==> {
                &&& r.val == n.right.unwrap().val
                &&& r.right == n.right.unwrap().right
                &&& r.left is Some
                &&& r.left.unwrap().val == n.val
                &&& r.left.unwrap().left == n.left
                &&& r.left.unwrap().right == n.right.unwrap().left
                &&& r.left.unwrap().height as int == r.left.unwrap().hgt()
                &&& r.height as int == r.hgt()
            },
            r.seq() == n.seq(),
    {
        let mut old_root = n;
        match old_root.right.take() {
            None => old_root,
            Some(mut new_root) => {
                old_root.right = new_root.left.take();
                (&mut *old_root).update_height();
                new_root.left = Some(old_root);
                (&mut *new_root).update_height();
                proof {
                    let rn = n.right.unwrap();
                    assert(new_root.left.unwrap().seq() =~= Node::seq_of(n.left)
                        + seq![n.val] + Node::seq_of(rn.left));
                    assert(n.right == Some(rn));
                    assert(Node::seq_of(n.right) == Node::seq_of(Some(rn)));
                    assert(Node::seq_of(Some(rn)) == rn.seq());
                    assert(n.seq() =~= Node::seq_of(n.left) + seq![n.val]
                        + (Node::seq_of(rn.left) + seq![rn.val] + Node::seq_of(rn.right)));
                    assert(new_root.seq() =~= n.seq());
                }
                new_root
            }
        }
    }

    /// Right rotation, the mirror image of `rotate_left`. Without a left
    /// child nothing moves.
    pub(crate) fn rotate_right(n: Box<Node<T>>) -> (r: Box<Node<T>>)
        requires
            n.left is Some ==> Node::cached_ok(n.right)
                && Node::cached_ok(n.left.unwrap().left)
                && Node::cached_ok(n.left.unwrap().right)
                && Node::height_of(n.right) <= usize::MAX - 2
                && Node::height_of(n.left.unwrap().right) <= usize::MAX - 2
                && Node::height_of(n.left.unwrap().left) <= usize::MAX - 2,
        ensures
            n.left is None ==> r == n,
            n.left is Some ==> {
                &&& r.val == n.left.unwrap().val
                &&& r.left == n.left.unwrap().left
                &&& r.right is Some
                &&& r.right.unwrap().val == n.val
                &&& r.right.unwrap().right == n.right
                &&& r.right.unwrap().left == n.left.unwrap().right
                &&& r.right.unwrap().height as int == r.right.unwrap().hgt()
                &&& r.height as int == r.hgt()
            },
            r.seq() == n.seq(),
    {
        let mut old_root = n;
        match old_root.left.take() {
            None => old_root,
            Some(mut new_root) => {
                old_root.left = new_root.right.take();
                (&mut *old_root).update_height();
                new_root.right = Some(old_root);
                (&mut *new_root).update_height();
                proof {
                    let ln = n.left.unwrap();
                    assert(new_root.right.unwrap().seq() =~= Node::seq_of(ln.right)
                        + seq![n.val] + Node::seq_of(n.right));
                    assert(n.left == Some(ln));
                    assert(Node::seq_of(n.left) == Node::seq_of(Some(ln)));
                    assert(Node::seq_of(Some(ln)) == ln.seq());
                    assert(n.seq() =~= (Node::seq_of(ln.left) + seq![ln.val]
                        + Node::seq_of(ln.right)) + seq![n.val] + Node::seq_of(n.right));
                    assert(new_root.seq() =~= n.seq());
                }
                new_root
            }
        }
    }

    /// Restore the AVL invariant at the root, by a single or a double
    /// rotation, after one subtree has changed height by at most one. If the
    /// node is already balanced, nothing changes.
    #[verifier::rlimit(100)]
    pub(crate) fn balance(n: Box<Node<T>>) -> (r: Box<Node<T>>)
        requires
            Node::wf_of(n.left),
            Node::wf_of(n.right),
            n.height as int == n.hgt(),
            Node::height_of(n.left) <= Node::height_of(n.right) + 2,
            Node::height_of(n.right) <= Node::height_of(n.left) + 2,
            all_le(Node::seq_of(n.left), n.val.key()),
            all_ge(Node::seq_of(n.right), n.val.key()),
            n.seq().len() <= usize::MAX,
        ensures
            r.wf(),
            r.seq() == n.seq(),
            n.hgt() - 1 <= r.hgt() <= n.hgt(),
            (Node::height_of(n.left) <= Node::height_of(n.right) + 1
                && Node::height_of(n.right) <= Node::height_of(n.left) + 1) ==> r == n,
    {
        let mut node = n;
        proof {
            Node::lemma_height_le_len(node.left);
            Node::lemma_height_le_len(node.right);
            assert(n.seq().len() == Node::seq_of(n.left).len() + 1 + Node::seq_of(n.right).len());
        }
        let hl = Node::opt_height(&node.left);
        let hr = Node::opt_height(&node.right);
        if hl > hr + 1 {
            // Left-heavy by two: `node.left` is present and two levels taller
            // than `node.right`.
            proof {
                let l = n.left.unwrap();
                assert(l.wf());
                if l.left is Some {
                    assert(l.left.unwrap().wf());
                }
                if l.right is Some {
                    assert(l.right.unwrap().wf());
                }
                Node::lemma_height_le_len(l.left);
                Node::lemma_height_le_len(l.right);
                assert(Node::seq_of(n.left) == l.seq());
                Self::lemma_bounds_split(
                    Node::seq_of(l.left), l.val, Node::seq_of(l.right), n.val.key());
            }
            let lean_right = match &node.left {
                Some(l) => Node::opt_height(&l.right) > Node::opt_height(&l.left),
                None => false,
            };
            if lean_right {
                // The left child leans right: rotate it left first, so that
                // the right rotation of the root rebalances the whole.
                let l = node.left.take().unwrap();
                proof {
                    let lr = l.right.unwrap();
                    assert(lr.wf());
                    if lr.left is Some {
                        assert(lr.left.unwrap().wf());
                    }
                    if lr.right is Some {
                        assert(lr.right.unwrap().wf());
                    }
                    Node::lemma_height_le_len(lr.left);
                    Node::lemma_height_le_len(lr.right);
                    assert(Node::seq_of(l.right) == lr.seq());
                    assert(l.seq().len()
                        == Node::seq_of(l.left).len() + 1 + Node::seq_of(l.right).len());
                    assert(lr.seq().len()
                        == Node::seq_of(lr.left).len() + 1 + Node::seq_of(lr.right).len());
                    Self::lemma_bounds_split(
                        Node::seq_of(lr.left), lr.val, Node::seq_of(lr.right), l.val.key());
                    Self::lemma_bounds_split(
                        Node::seq_of(lr.left), lr.val, Node::seq_of(lr.right), n.val.key());
                }
                let l2 = Node::rotate_left(l);
                node.left = Some(l2);
            }
            proof {
                let cl = node.left.unwrap();
                assert(Node::cached_ok(cl.left));
                assert(Node::cached_ok(cl.right));
            }
            let root = Node::rotate_right(node);
            proof {
                let l = n.left.unwrap();
                let inner = root.right.unwrap();
                assert(Node::seq_of(root.right) == inner.seq());
                if lean_right {
                    let lrn = l.right.unwrap();
                    let a = root.left.unwrap();
                    assert(Node::seq_of(root.left) == a.seq());
                    assert(a.wf());
                    assert(inner.wf());
                    Self::lemma_bounds_split(
                        Node::seq_of(a.left), a.val, Node::seq_of(a.right), root.val.key());
                    assert(all_le(Node::seq_of(root.left), root.val.key()));
                    Self::lemma_bounds_split(
                        Node::seq_of(inner.left), inner.val, Node::seq_of(inner.right),
                        root.val.key());
                    assert(all_ge(Node::seq_of(root.right), root.val.key()));
                    assert(root.wf());
                } else {
                    assert(inner.wf());
                    Self::lemma_bounds_split(
                        Node::seq_of(inner.left), inner.val, Node::seq_of(inner.right),
                        root.val.key());
                    assert(all_ge(Node::seq_of(root.right), root.val.key()));
                    assert(root.wf());
                }
                assert(root.seq() =~= n.seq());
            }
            root
        } else if hr > hl + 1 {
            // Right-heavy by two: the mirror image.
            proof {
                let r0 = n.right.unwrap();
                assert(r0.wf());
                if r0.left is Some {
                    assert(r0.left.unwrap().wf());
                }
                if r0.right is Some {
                    assert(r0.right.unwrap().wf());
                }
                Node::lemma_height_le_len(r0.left);
                Node::lemma_height_le_len(r0.right);
                assert(Node::seq_of(n.right) == r0.seq());
                Self::lemma_bounds_split(
                    Node::seq_of(r0.left), r0.val, Node::seq_of(r0.right), n.val.key());
            }
            let lean_left = match &node.right {
                Some(r0) => Node::opt_height(&r0.left) > Node::opt_height(&r0.right),
                None => false,
            };
            if lean_left {
                let r0 = node.right.take().unwrap();
                proof {
                    let rl = r0.left.unwrap();
                    assert(rl.wf());
                    if rl.left is Some {
                        assert(rl.left.unwrap().wf());
                    }
                    if rl.right is Some {
                        assert(rl.right.unwrap().wf());
                    }
                    Node::lemma_height_le_len(rl.left);
                    Node::lemma_height_le_len(rl.right);
                    assert(Node::seq_of(r0.left) == rl.seq());
                    assert(r0.seq().len()
                        == Node::seq_of(r0.left).len() + 1 + Node::seq_of(r0.right).len());
                    assert(rl.seq().len()
                        == Node::seq_of(rl.left).len() + 1 + Node::seq_of(rl.right).len());
                    Self::lemma_bounds_split(
                        Node::seq_of(rl.left), rl.val, Node::seq_of(rl.right), r0.val.key());
                    Self::lemma_bounds_split(
                        Node::seq_of(rl.left), rl.val, Node::seq_of(rl.right), n.val.key());
                }
                let r2 = Node::rotate_right(r0);
                node.right = Some(r2);
            }
            proof {
                let cr = node.right.unwrap();
                assert(Node::cached_ok(cr.left));
                assert(Node::cached_ok(cr.right));
            }
            let root = Node::rotate_left(node);
            proof {
                let r0 = n.right.unwrap();
                let inner = root.left.unwrap();
                assert(Node::seq_of(root.left) == inner.seq());
                if lean_left {
                    let rln = r0.left.unwrap();
                    let a = root.right.unwrap();
                    assert(Node::seq_of(root.right) == a.seq());
                    assert(a.wf());
                    assert(inner.wf());
                    Self::lemma_bounds_split(
                        Node::seq_of(a.left), a.val, Node::seq_of(a.right), root.val.key());
                    assert(all_ge(Node::seq_of(root.right), root.val.key()));
                    Self::lemma_bounds_split(
                        Node::seq_of(inner.left), inner.val, Node::seq_of(inner.right),
                        root.val.key());
                    assert(all_le(Node::seq_of(root.left), root.val.key()));
                    assert(root.wf());
                } else {
                    assert(inner.wf());
                    Self::lemma_bounds_split(
                        Node::seq_of(inner.left), inner.val, Node::seq_of(inner.right),
                        root.val.key());
                    assert(all_le(Node::seq_of(root.left), root.val.key()));
                    assert(root.wf());
                }
                assert(root.seq() =~= n.seq());
            }
            root
        } else {
            node
        }
    }

    /// Insert `val` into the subtree, keeping duplicates: an element whose
    /// key is already present goes into the greater-or-equal branch. The
    /// subtree is rebalanced on the way back up and grows by at most one
    /// level.
    pub(crate) fn insert(node: &mut Option<Box<Node<T>>>, val: T)
        requires
            Node::wf_of(*old(node)),
            Node::seq_of(*old(node)).len() < usize::MAX,
        ensures
            Node::wf_of(*final(node)),
            Node::seq_of(*final(node)) == inserted(Node::seq_of(*old(node)), val),
            Node::seq_of(*final(node)).len() == Node::seq_of(*old(node)).len() + 1,
            Node::height_of(*old(node)) <= Node::height_of(*final(node))
                <= Node::height_of(*old(node)) + 1,
        decreases *old(node),
    {
        match node.take() {
            None => {
                *node = Some(Box::new(Node::new(val)));
                proof {
                    lemma_filter_all_false(Seq::<T>::empty(), le_key::<T>(val.key()));
                    lemma_filter_all_false(Seq::<T>::empty(), gt_key::<T>(val.key()));
                    assert(Node::seq_of(*node) =~= inserted(Seq::empty(), val));
                }
            }
            Some(mut b) => {
                proof {
                    assert(b.wf());
                    assert(Node::seq_of(*old(node)) == b.seq());
                    Node::lemma_height_le_len(b.left);
                    Node::lemma_height_le_len(b.right);
                    assert(b.seq().len()
                        == Node::seq_of(b.left).len() + 1 + Node::seq_of(b.right).len());
                }
                let ghost l0 = Node::seq_of(b.left);
                let ghost r0 = Node::seq_of(b.right);
                let ghost mid = b.val;
                let less = matches!(val.key_cmp(&b.val), core::cmp::Ordering::Less);
                if less {
                    Node::insert(&mut b.left, val);
                    proof {
                        lemma_inserted_left(l0, mid, r0, val);
                        lemma_inserted_bounds(l0, val, mid.key());
                    }
                } else {
                    Node::insert(&mut b.right, val);
                    proof {
                        lemma_inserted_right(l0, mid, r0, val);
                        lemma_inserted_bounds(r0, val, mid.key());
                    }
                }
                proof {
                    if b.left is Some {
                        assert(b.left.unwrap().wf());
                    }
                    if b.right is Some {
                        assert(b.right.unwrap().wf());
                    }
                }
                (&mut *b).update_height();
                let b2 = Node::balance(b);
                proof {
                    assert(b2.seq() == b.seq());
                    assert(b.seq() =~= inserted(Node::seq_of(*old(node)), val));
                }
                *node = Some(b2);
            }
        }
    }

    /// Insert `val` unless an element with its key is already present; in
    /// that case overwrite that element in place and report that nothing new
    /// was inserted.
    pub(crate) fn insert_distinct(node: &mut Option<Box<Node<T>>>, val: T) -> (r: bool)
        requires
            Node::wf_of(*old(node)),
            Node::seq_of(*old(node)).len() <= usize::MAX,
            !has_key(Node::seq_of(*old(node)), val.key())
                ==> Node::seq_of(*old(node)).len() < usize::MAX,
        ensures
            Node::wf_of(*final(node)),
            r <==> !has_key(Node::seq_of(*old(node)), val.key()),
            r ==> Node::seq_of(*final(node)) == inserted(Node::seq_of(*old(node)), val),
            r ==> Node::seq_of(*final(node)).len() == Node::seq_of(*old(node)).len() + 1,
            r ==> Node::height_of(*old(node)) <= Node::height_of(*final(node))
                <= Node::height_of(*old(node)) + 1,
            !r ==> exists|i: int|
                0 <= i < Node::seq_of(*old(node)).len()
                && #[trigger] Node::seq_of(*old(node))[i].key() == val.key()
                && Node::seq_of(*final(node)) == Node::seq_of(*old(node)).update(i, val),
            !r ==> Node::height_of(*final(node)) == Node::height_of(*old(node)),
        decreases *old(node),
    {
        match node.take() {
            None => {
                *node = Some(Box::new(Node::new(val)));
                proof {
                    lemma_filter_all_false(Seq::<T>::empty(), le_key::<T>(val.key()));
                    lemma_filter_all_false(Seq::<T>::empty(), gt_key::<T>(val.key()));
                    assert(Node::seq_of(*node) =~= inserted(Seq::empty(), val));
                }
                true
            }
            Some(mut b) => {
                proof {
                    assert(b.wf());
                    assert(Node::seq_of(*old(node)) == b.seq());
                    Node::lemma_height_le_len(b.left);
                    Node::lemma_height_le_len(b.right);
                    assert(b.seq().len()
                        == Node::seq_of(b.left).len() + 1 + Node::seq_of(b.right).len());
                    lemma_has_key_split(
                        Node::seq_of(b.left), b.val, Node::seq_of(b.right), val.key());
                }
                let ghost l0 = Node::seq_of(b.left);
                let ghost r0 = Node::seq_of(b.right);
                let ghost mid = b.val;
                match val.key_cmp(&b.val) {
                    core::cmp::Ordering::Equal => {
                        b.val = val;
                        proof {
                            assert(b.seq() =~= Node::seq_of(*old(node)).update(
                                l0.len() as int, val));
                            assert(Node::seq_of(*old(node))[l0.len() as int].key()
                                == val.key());
                            assert(b.wf());
                        }
                        *node = Some(b);
                        false
                    }
                    core::cmp::Ordering::Less => {
                        let r = Node::insert_distinct(&mut b.left, val);
                        proof {
                            if r {
                                lemma_inserted_left(l0, mid, r0, val);
                                lemma_inserted_bounds(l0, val, mid.key());
                            } else {
                                let j = choose|j: int|
                                    0 <= j < l0.len() && #[trigger] l0[j].key() == val.key()
                                    && Node::seq_of(b.left) == l0.update(j, val);
                                assert(b.seq() =~= Node::seq_of(*old(node)).update(j, val));
                                assert(Node::seq_of(*old(node))[j].key() == val.key());
                                assert forall|i: int| 0 <= i < Node::seq_of(b.left).len()
                                    implies #[trigger] Node::seq_of(b.left)[i].key()
                                        <= mid.key() by {
                                    if i != j {
                                        assert(Node::seq_of(b.left)[i] == l0[i]);
                                    }
                                }
                            }
                            if b.left is Some {
                                assert(b.left.unwrap().wf());
                            }
                            if b.right is Some {
                                assert(b.right.unwrap().wf());
                            }
                        }
                        (&mut *b).update_height();
                        let b2 = Node::balance(b);
                        proof {
                            assert(b2.seq() == b.seq());
                            if r {
                                assert(b.seq() =~= inserted(Node::seq_of(*old(node)), val));
                            }
                        }
                        *node = Some(b2);
                        r
                    }
                    core::cmp::Ordering::Greater => {
                        let r = Node::insert_distinct(&mut b.right, val);
                        proof {
                            if r {
                                lemma_inserted_right(l0, mid, r0, val);
                                lemma_inserted_bounds(r0, val, mid.key());
                            } else {
                                let j = choose|j: int|
                                    0 <= j < r0.len() && #[trigger] r0[j].key() == val.key()
                                    && Node::seq_of(b.right) == r0.update(j, val);
                                assert(b.seq() =~= Node::seq_of(*old(node)).update(
                                    l0.len() + 1 + j, val));
                                assert(Node::seq_of(*old(node))[l0.len() + 1 + j].key()
                                    == val.key());
                                assert forall|i: int| 0 <= i < Node::seq_of(b.right).len()
                                    implies #[trigger] Node::seq_of(b.right)[i].key()
                                        >= mid.key() by {
                                    if i != j {
                                        assert(Node::seq_of(b.right)[i] == r0[i]);
                                    }
                                }
                            }
                            if b.left is Some {
                                assert(b.left.unwrap().wf());
                            }
                            if b.right is Some {
                                assert(b.right.unwrap().wf());
                            }
                        }
                        (&mut *b).update_height();
                        let b2 = Node::balance(b);
                        proof {
                            assert(b2.seq() == b.seq());
                            if r {
                                assert(b.seq() =~= inserted(Node::seq_of(*old(node)), val));
                            }
                        }
                        *node = Some(b2);
                        r
                    }
                }
            }
        }
    }

    /// Remove and return the least element: the leftmost node of the
    /// subtree. Used on deletion to splice the in-order successor into the
    /// place of a node with two children.
    pub(crate) fn take_min(node: &mut Option<Box<Node<T>>>) -> (m: T)
        requires
            *old(node) is Some,
            Node::wf_of(*old(node)),
            Node::seq_of(*old(node)).len() <= usize::MAX,
        ensures
            Node::wf_of(*final(node)),
            m == Node::seq_of(*old(node))[0],
            Node::seq_of(*final(node)) == Node::seq_of(*old(node)).drop_first(),
            Node::height_of(*old(node)) - 1 <= Node::height_of(*final(node))
                <= Node::height_of(*old(node)),
        decreases *old(node),
    {
        let mut b = node.take().unwrap();
        proof {
            assert(b.wf());
            if b.left is Some {
                assert(b.left.unwrap().wf());
            }
            if b.right is Some {
                assert(b.right.unwrap().wf());
            }
            assert(Node::seq_of(*old(node)) == b.seq());
            assert(Node::height_of(*old(node)) == b.hgt());
            assert(b.seq().len()
                == Node::seq_of(b.left).len() + 1 + Node::seq_of(b.right).len());
        }
        let ghost l0 = Node::seq_of(b.left);
        let ghost r0 = Node::seq_of(b.right);
        let ghost h0 = b.hgt();
        let ghost hl0 = Node::height_of(b.left);
        let ghost hr0 = Node::height_of(b.right);
        if b.left.is_some() {
            let m = Node::take_min(&mut b.left);
            proof {
                assert(Node::seq_of(b.left) == l0.drop_first());
                assert(b.seq() =~= Node::seq_of(*old(node)).drop_first());
                assert(m == l0[0]);
                assert(Node::seq_of(*old(node))[0] == l0[0]);
                assert forall|i: int| 0 <= i < Node::seq_of(b.left).len()
                    implies #[trigger] Node::seq_of(b.left)[i].key() <= b.val.key() by {
                    assert(Node::seq_of(b.left)[i] == l0[i + 1]);
                }
                if b.left is Some {
                    assert(b.left.unwrap().wf());
                }
                if b.right is Some {
                    assert(b.right.unwrap().wf());
                }
            }
            (&mut *b).update_height();
            let b2 = Node::balance(b);
            proof {
                assert(b2.seq() == b.seq());
                assert(Node::height_of(Some(b2)) == b2.hgt());
                assert(hl0 - 1 <= Node::height_of(b.left) <= hl0);
                assert(h0 - 1 <= b2.hgt() <= h0);
            }
            *node = Some(b2);
            m
        } else {
            let n = *b;
            let m = n.val;
            *node = n.right;
            proof {
                assert(l0 =~= Seq::<T>::empty());
                assert(hl0 == 0);
                assert(h0 == 1 + hr0);
                assert(Node::seq_of(*old(node))[0] == m);
                assert(Node::seq_of(*node) =~= Node::seq_of(*old(node)).drop_first());
                assert(Node::height_of(*node) == hr0);
            }
            m
        }
    }

    /// Remove the element at the root of the subtree. A root with two
    /// children is replaced by its in-order successor, the least element of
    /// the right subtree; with at most one child it is replaced by that
    /// child.
    #[verifier::rlimit(60)]
    pub(crate) fn remove_root(node: &mut Option<Box<Node<T>>>) -> (m: T)
        requires
            *old(node) is Some,
            Node::wf_of(*old(node)),
            Node::seq_of(*old(node)).len() <= usize::MAX,
        ensures
            Node::wf_of(*final(node)),
            m == Node::seq_of(*old(node))[Node::seq_of(old(node).unwrap().left).len() as int],
            Node::seq_of(*final(node)) == Node::seq_of(*old(node)).remove(
                Node::seq_of(old(node).unwrap().left).len() as int),
            Node::height_of(*old(node)) - 1 <= Node::height_of(*final(node))
                <= Node::height_of(*old(node)),
    {
        let mut b = node.take().unwrap();
        proof {
            assert(b.wf());
            if b.left is Some {
                assert(b.left.unwrap().wf());
            }
            if b.right is Some {
                assert(b.right.unwrap().wf());
            }
            assert(Node::seq_of(*old(node)) == b.seq());
            assert(Node::height_of(*old(node)) == b.hgt());
            assert(b.seq().len()
                == Node::seq_of(b.left).len() + 1 + Node::seq_of(b.right).len());
        }
        let ghost l0 = Node::seq_of(b.left);
        let ghost r0 = Node::seq_of(b.right);
        let ghost mid = b.val;
        let ghost h0 = b.hgt();
        let ghost hl0 = Node::height_of(b.left);
        let ghost hr0 = Node::height_of(b.right);
        if b.left.is_none() {
            let n = *b;
            *node = n.right;
            proof {
                assert(l0 =~= Seq::<T>::empty());
                assert(hl0 == 0);
                assert(h0 == 1 + hr0);
                assert(Node::seq_of(*old(node))[0] == n.val);
                assert(Node::seq_of(*node) =~= Node::seq_of(*old(node)).remove(0));
                assert(Node::height_of(*node) == hr0);
            }
            n.val
        } else if b.right.is_none() {
            let n = *b;
            *node = n.left;
            proof {
                assert(r0 =~= Seq::<T>::empty());
                assert(hr0 == 0);
                assert(h0 == 1 + hl0);
                assert(Node::seq_of(*old(node))[l0.len() as int] == n.val);
                assert(Node::seq_of(*node)
                    =~= Node::seq_of(*old(node)).remove(l0.len() as int));
                assert(Node::height_of(*node) == hl0);
            }
            n.val
        } else {
            proof {
                Node::lemma_wf_sorted(b.right);
            }
            let mut m = Node::take_min(&mut b.right);
            core::mem::swap(&mut b.val, &mut m);
            proof {
                assert(b.val == r0[0]);
                assert(m == mid);
                assert(b.seq() =~= Node::seq_of(*old(node)).remove(l0.len() as int));
                assert(Node::seq_of(*old(node))[l0.len() as int] == mid);
                assert forall|i: int| 0 <= i < Node::seq_of(b.left).len()
                    implies #[trigger] Node::seq_of(b.left)[i].key() <= b.val.key() by {
                    assert(l0[i].key() <= mid.key());
                    assert(mid.key() <= r0[0].key());
                }
                assert forall|i: int| 0 <= i < Node::seq_of(b.right).len()
                    implies #[trigger] Node::seq_of(b.right)[i].key() >= b.val.key() by {
                    assert(Node::seq_of(b.right)[i] == r0[i + 1]);
                    assert(r0[0].key() <= r0[i + 1].key());
                }
                if b.left is Some {
                    assert(b.left.unwrap().wf());
                }
                if b.right is Some {
                    assert(b.right.unwrap().wf());
                }
            }
            (&mut *b).update_height();
            let b2 = Node::balance(b);
            proof {
                assert(b2.seq() == b.seq());
                assert(Node::height_of(Some(b2)) == b2.hgt());
                assert(hr0 - 1 <= Node::height_of(b.right) <= hr0);
                assert(h0 - 1 <= b2.hgt() <= h0);
            }
            *node = Some(b2);
            m
        }
    }

    /// Remove one element whose key matches the probe, if any, and return
    /// it. A node with two children is replaced by its in-order successor
    /// (the least element of its right subtree); the subtree is rebalanced
    /// on the way back up and shrinks by at most one level.
    #[verifier::rlimit(100)]
    pub(crate) fn remove_by<P: Probe<T>>(node: &mut Option<Box<Node<T>>>, p: &P) -> (r:
        Option<T>)
        requires
            Node::wf_of(*old(node)),
            Node::seq_of(*old(node)).len() <= usize::MAX,
        ensures
            Node::wf_of(*final(node)),
            r is Some <==> has_key(Node::seq_of(*old(node)), p.probe_key()),
            r is None ==> *final(node) == *old(node),
            r matches Some(v) ==> v.key() == p.probe_key() && exists|i: int|
                0 <= i < Node::seq_of(*old(node)).len()
                && #[trigger] Node::seq_of(*old(node))[i] == v
                && Node::seq_of(*old(node))[i].key() == p.probe_key()
                && Node::seq_of(*final(node)) == Node::seq_of(*old(node)).remove(i),
            Node::height_of(*old(node)) - 1 <= Node::height_of(*final(node))
                <= Node::height_of(*old(node)),
        decreases *old(node),
    {
        match node.take() {
            None => None,
            Some(mut b) => {
                proof {
                    assert(b.wf());
                    if b.left is Some {
                        assert(b.left.unwrap().wf());
                    }
                    if b.right is Some {
                        assert(b.right.unwrap().wf());
                    }
                    assert(Node::seq_of(*old(node)) == b.seq());
                    assert(Node::height_of(*old(node)) == b.hgt());
                    assert(b.seq().len()
                        == Node::seq_of(b.left).len() + 1 + Node::seq_of(b.right).len());
                    lemma_has_key_split(
                        Node::seq_of(b.left), b.val, Node::seq_of(b.right), p.probe_key());
                }
                let ghost l0 = Node::seq_of(b.left);
                let ghost r0 = Node::seq_of(b.right);
                let ghost mid = b.val;
                let ghost h0 = b.hgt();
                let ghost hl0 = Node::height_of(b.left);
                let ghost hr0 = Node::height_of(b.right);
                match p.probe_cmp(&b.val) {
                    core::cmp::Ordering::Less => {
                        let r = Node::remove_by(&mut b.left, p);
                        proof {
                            if r is Some {
                                let v = r.unwrap();
                                let j = choose|j: int|
                                    0 <= j < l0.len() && #[trigger] l0[j] == v
                                    && l0[j].key() == p.probe_key()
                                    && Node::seq_of(b.left) == l0.remove(j);
                                assert(b.seq() =~= Node::seq_of(*old(node)).remove(j));
                                assert(Node::seq_of(*old(node))[j] == v);
                                assert forall|i: int| 0 <= i < Node::seq_of(b.left).len()
                                    implies #[trigger] Node::seq_of(b.left)[i].key()
                                        <= mid.key() by {
                                    l0.remove_ensures(j);
                                }
                            }
                            if b.left is Some {
                                assert(b.left.unwrap().wf());
                            }
                            if b.right is Some {
                                assert(b.right.unwrap().wf());
                            }
                        }
                        (&mut *b).update_height();
                        let b2 = Node::balance(b);
                        proof {
                            assert(b2.seq() == b.seq());
                            assert(Node::height_of(Some(b2)) == b2.hgt());
                            assert(hl0 - 1 <= Node::height_of(b.left) <= hl0);
                            assert(h0 - 1 <= b2.hgt() <= h0);
                            if r is None {
                                assert(b2 == b);
                                assert(*old(node) == Some(b2));
                            }
                        }
                        *node = Some(b2);
                        r
                    }
                    core::cmp::Ordering::Greater => {
                        let r = Node::remove_by(&mut b.right, p);
                        proof {
                            if r is Some {
                                let v = r.unwrap();
                                let j = choose|j: int|
                                    0 <= j < r0.len() && #[trigger] r0[j] == v
                                    && r0[j].key() == p.probe_key()
                                    && Node::seq_of(b.right) == r0.remove(j);
                                assert(b.seq() =~= Node::seq_of(*old(node)).remove(
                                    l0.len() + 1 + j));
                                assert(Node::seq_of(*old(node))[l0.len() + 1 + j] == v);
                                assert forall|i: int| 0 <= i < Node::seq_of(b.right).len()
                                    implies #[trigger] Node::seq_of(b.right)[i].key()
                                        >= mid.key() by {
                                    r0.remove_ensures(j);
                                }
                            }
                            if b.left is Some {
                                assert(b.left.unwrap().wf());
                            }
                            if b.right is Some {
                                assert(b.right.unwrap().wf());
                            }
                        }
                        (&mut *b).update_height();
                        let b2 = Node::balance(b);
                        proof {
                            assert(b2.seq() == b.seq());
                            assert(Node::height_of(Some(b2)) == b2.hgt());
                            assert(hr0 - 1 <= Node::height_of(b.right) <= hr0);
                            assert(h0 - 1 <= b2.hgt() <= h0);
                            if r is None {
                                assert(b2 == b);
                                assert(*old(node) == Some(b2));
                            }
                        }
                        *node = Some(b2);
                        r
                    }
                    core::cmp::Ordering::Equal => {
                        *node = Some(b);
                        let m = Node::remove_root(node);
                        proof {
                            assert(m == Node::seq_of(*old(node))[l0.len() as int]);
                            assert(Node::seq_of(*old(node))[l0.len() as int] == mid);
                        }
                        Some(m)
                    }
                }
            }
        }
    }

    /// The least element: the leftmost node of the subtree.
    pub(crate) fn find_min(&self) -> (r: &T)
        requires
            self.wf(),
        ensures
            *r == self.seq()[0],
        decreases self,
    {
        proof {
            assert(self.seq().len()
                == Node::seq_of(self.left).len() + 1 + Node::seq_of(self.right).len());
        }
        match &self.left {
            Some(l) => {
                proof {
                    assert(Node::seq_of(self.left) == l.seq());
                    assert(self.seq()[0] == l.seq()[0]);
                }
                l.find_min()
            }
            None => {
                proof {
                    assert(Node::seq_of(self.left) =~= Seq::<T>::empty());
                    assert(self.seq()[0] == self.val);
                }
                &self.val
            }
        }
    }

    /// The greatest element: the rightmost node of the subtree.
    pub(crate) fn find_max(&self) -> (r: &T)
        requires
            self.wf(),
        ensures
            *r == self.seq().last(),
        decreases self,
    {
        proof {
            assert(self.seq().len()
                == Node::seq_of(self.left).len() + 1 + Node::seq_of(self.right).len());
        }
        match &self.right {
            Some(rn) => {
                proof {
                    assert(Node::seq_of(self.right) == rn.seq());
                    assert(self.seq().last() == rn.seq().last());
                }
                rn.find_max()
            }
            None => {
                proof {
                    assert(Node::seq_of(self.right) =~= Seq::<T>::empty());
                    assert(self.seq().last() == self.val);
                }
                &self.val
            }
        }
    }

    /// Whether some element's key matches the probe's key.
    pub(crate) fn contains_by<P: Probe<T>>(&self, p: &P) -> (r: bool)
        requires
            self.wf(),
        ensures
            r == has_key(self.seq(), p.probe_key()),
        decreases self,
    {
        proof {
            lemma_has_key_split(
                Node::seq_of(self.left), self.val, Node::seq_of(self.right), p.probe_key());
        }
        match p.probe_cmp(&self.val) {
            core::cmp::Ordering::Equal => true,
            core::cmp::Ordering::Less => {
                match &self.left {
                    Some(l) => {
                        proof {
                            assert(Node::seq_of(self.left) == l.seq());
                        }
                        l.contains_by(p)
                    }
                    None => {
                        proof {
                            assert(Node::seq_of(self.left) =~= Seq::<T>::empty());
                        }
                        false
                    }
                }
            }
            core::cmp::Ordering::Greater => {
                match &self.right {
                    Some(rn) => {
                        proof {
                            assert(Node::seq_of(self.right) == rn.seq());
                        }
                        rn.contains_by(p)
                    }
                    None => {
                        proof {
                            assert(Node::seq_of(self.right) =~= Seq::<T>::empty());
                        }
                        false
                    }
                }
            }
        }
    }

    /// A reference to an element whose key matches the probe's key, if any.
    pub(crate) fn get_by<'a, P: Probe<T>>(&'a self, p: &P) -> (r: Option<&'a T>)
        requires
            self.wf(),
        ensures
            r is Some <==> has_key(self.seq(), p.probe_key()),
            r matches Some(v) ==> v.key() == p.probe_key() && self.seq().contains(*v),
        decreases self,
    {
        proof {
            lemma_has_key_split(
                Node::seq_of(self.left), self.val, Node::seq_of(self.right), p.probe_key());
            assert(self.seq()[Node::seq_of(self.left).len() as int] == self.val);
        }
        match p.probe_cmp(&self.val) {
            core::cmp::Ordering::Equal => Some(&self.val),
            core::cmp::Ordering::Less => {
                match &self.left {
                    Some(l) => {
                        proof {
                            assert(Node::seq_of(self.left) == l.seq());
                        }
                        let r = l.get_by(p);
                        proof {
                            if r is Some {
                                let v = *r.unwrap();
                                let j = choose|j: int|
                                    0 <= j < l.seq().len() && l.seq()[j] == v;
                                assert(self.seq()[j] == v);
                            }
                        }
                        r
                    }
                    None => {
                        proof {
                            assert(Node::seq_of(self.left) =~= Seq::<T>::empty());
                        }
                        None
                    }
                }
            }
            core::cmp::Ordering::Greater => {
                match &self.right {
                    Some(rn) => {
                        proof {
                            assert(Node::seq_of(self.right) == rn.seq());
                        }
                        let r = rn.get_by(p);
                        proof {
                            if r is Some {
                                let v = *r.unwrap();
                                let j = choose|j: int|
                                    0 <= j < rn.seq().len() && rn.seq()[j] == v;
                                assert(self.seq()[Node::seq_of(self.left).len() + 1 + j]
                                    == v);
                            }
                        }
                        r
                    }
                    None => {
                        proof {
                            assert(Node::seq_of(self.right) =~= Seq::<T>::empty());
                        }
                        None
                    }
                }
            }
        }
    }

    /// A mutable reference to an element whose key matches the probe's, if
    /// any, together with the element's position in the in-order sequence.
    /// The caller may change the element; the structure keeps its shape
    /// either way, and stays well-formed provided the element's key is left
    /// unchanged.
    pub(crate) fn get_mut_by<'a, P: Probe<T>>(node: &'a mut Node<T>, p: &P) -> (r: (Option<
        &'a mut T>, Ghost<int>))
        requires
            old(node).wf(),
        ensures
            r.0 is None ==> !has_key(old(node).seq(), p.probe_key())
                && *final(node) == *old(node),
            r.0 matches Some(v) ==> {
                let i = r.1@;
                &&& 0 <= i < old(node).seq().len()
                &&& old(node).seq()[i] == *v
                &&& (*v).key() == p.probe_key()
                &&& (final(node).seq() =~= old(node).seq().update(i, *final(v)))
                &&& ((*final(v)).key() == (*v).key() ==> final(node).wf()
                    && final(node).hgt() == old(node).hgt())
            },
        decreases *old(node),
    {
        proof {
            assert(old(node).seq()[Node::seq_of(old(node).left).len() as int]
                == old(node).val);
            lemma_has_key_split(
                Node::seq_of(old(node).left), old(node).val, Node::seq_of(old(node).right),
                p.probe_key());
        }
        let o = p.probe_cmp(&node.val);
        match o {
            core::cmp::Ordering::Equal => {
                let ghost i = Node::seq_of(old(node).left).len() as int;
                (Some(&mut node.val), Ghost(i))
            }
            core::cmp::Ordering::Less => {
                match &mut node.left {
                    Some(b) => {
                        let (r, Ghost(j)) = Self::get_mut_by(&mut **b, p);
                        proof {
                            if r is None {
                                assert(!has_key(Node::seq_of(old(node).left),
                                    p.probe_key()));
                            }
                        }
                        (r, Ghost(j))
                    }
                    None => (None, Ghost(0)),
                }
            }
            core::cmp::Ordering::Greater => {
                match &mut node.right {
                    Some(b) => {
                        let (r, Ghost(j)) = Self::get_mut_by(&mut **b, p);
                        proof {
                            if r is None {
                                assert(!has_key(Node::seq_of(old(node).right),
                                    p.probe_key()));
                            }
                        }
                        (r, Ghost(Node::seq_of(old(node).left).len() + 1 + j))
                    }
                    None => (None, Ghost(0)),
                }
            }
        }
    }

    /// The element nearest to `target` under a tie-break: at an element
    /// with the target's key the walk stops; otherwise it descends only
    /// toward the target's side and combines the element left behind with
    /// the best of that subtree. The result is always an element of the
    /// tree, and when the chooser's cost agrees with the key order around
    /// the target, it is one of least cost: the pruned far side never holds
    /// a cheaper element than the one the walk passed.
    pub(crate) fn nearest_to<'a, C: Chooser<T>>(&'a self, target: &T, by: &C) -> (r: &'a T)
        requires
            self.wf(),
        ensures
            self.seq().contains(*r),
            target.key() == self.val.key() ==> *r == self.val,
            cost_consistent(*by, *target) ==> forall|i: int|
                0 <= i < self.seq().len()
                ==> by.cost(r) <= #[trigger] by.cost(&self.seq()[i]),
        decreases self,
    {
        proof {
            assert(self.seq()[Node::seq_of(self.left).len() as int] == self.val);
            assert(self.seq().len()
                == Node::seq_of(self.left).len() + 1 + Node::seq_of(self.right).len());
        }
        let ghost l0 = Node::seq_of(self.left);
        let ghost r0 = Node::seq_of(self.right);
        match target.key_cmp(&self.val) {
            core::cmp::Ordering::Equal => {
                proof {
                    if cost_consistent(*by, *target) {
                        assert forall|i: int| 0 <= i < self.seq().len()
                            implies by.cost(&self.val)
                                <= #[trigger] by.cost(&self.seq()[i]) by {
                            if i < l0.len() {
                                assert(self.seq()[i] == l0[i]);
                                assert(l0[i].key() <= self.val.key());
                            } else if i > l0.len() {
                                assert(self.seq()[i] == r0[i - l0.len() - 1]);
                                assert(r0[i - l0.len() - 1].key() >= self.val.key());
                            }
                        }
                    }
                }
                &self.val
            }
            core::cmp::Ordering::Greater => {
                match &self.right {
                    Some(rn) => {
                        proof {
                            assert(Node::seq_of(self.right) == rn.seq());
                        }
                        let c = rn.nearest_to(target, by);
                        let picked = by.pick(&self.val, c);
                        proof {
                            let j = choose|j: int|
                                0 <= j < rn.seq().len() && rn.seq()[j] == *c;
                            assert(self.seq()[l0.len() + 1 + j] == *c);
                            if cost_consistent(*by, *target) {
                                assert forall|i: int| 0 <= i < self.seq().len()
                                    implies by.cost(picked)
                                        <= #[trigger] by.cost(&self.seq()[i]) by {
                                    if i < l0.len() {
                                        assert(self.seq()[i] == l0[i]);
                                        assert(l0[i].key() <= self.val.key());
                                        assert(by.cost(&self.val)
                                            <= by.cost(&self.seq()[i]));
                                    } else if i > l0.len() {
                                        assert(self.seq()[i] == r0[i - l0.len() - 1]);
                                        assert(by.cost(c) <= by.cost(&self.seq()[i]));
                                    }
                                }
                            }
                        }
                        picked
                    }
                    None => {
                        proof {
                            if cost_consistent(*by, *target) {
                                assert forall|i: int| 0 <= i < self.seq().len()
                                    implies by.cost(&self.val)
                                        <= #[trigger] by.cost(&self.seq()[i]) by {
                                    if i < l0.len() {
                                        assert(self.seq()[i] == l0[i]);
                                        assert(l0[i].key() <= self.val.key());
                                    }
                                }
                            }
                        }
                        &self.val
                    }
                }
            }
            core::cmp::Ordering::Less => {
                match &self.left {
                    Some(l) => {
                        proof {
                            assert(Node::seq_of(self.left) == l.seq());
                        }
                        let c = l.nearest_to(target, by);
                        let picked = by.pick(&self.val, c);
                        proof {
                            let j = choose|j: int| 0 <= j < l.seq().len() && l.seq()[j] == *c;
                            assert(self.seq()[j] == *c);
                            if cost_consistent(*by, *target) {
                                assert forall|i: int| 0 <= i < self.seq().len()
                                    implies by.cost(picked)
                                        <= #[trigger] by.cost(&self.seq()[i]) by {
                                    if i < l0.len() {
                                        assert(self.seq()[i] == l0[i]);
                                        assert(by.cost(c) <= by.cost(&self.seq()[i]));
                                    } else if i > l0.len() {
                                        assert(self.seq()[i] == r0[i - l0.len() - 1]);
                                        assert(r0[i - l0.len() - 1].key() >= self.val.key());
                                        assert(by.cost(&self.val)
                                            <= by.cost(&self.seq()[i]));
                                    }
                                }
                            }
                        }
                        picked
                    }
                    None => {
                        proof {
                            if cost_consistent(*by, *target) {
                                assert forall|i: int| 0 <= i < self.seq().len()
                                    implies by.cost(&self.val)
                                        <= #[trigger] by.cost(&self.seq()[i]) by {
                                    if i > l0.len() {
                                        assert(self.seq()[i] == r0[i - l0.len() - 1]);
                                        assert(r0[i - l0.len() - 1].key() >= self.val.key());
                                    }
                                }
                            }
                        }
                        &self.val
                    }
                }
            }
        }
    }

    /// The element farthest from `target` under an arbitrary tie-break. At
    /// an element with the target's key both subtrees are explored; away
    /// from it the walk crosses toward the side away from the target. The
    /// result is always one of the tree's elements.
    pub(crate) fn farthest_to<'a, C: Chooser<T>>(&'a self, target: &T, by: &C) -> (r: &'a T)
        requires
            self.wf(),
        ensures
            self.seq().contains(*r),
        decreases self,
    {
        proof {
            assert(self.seq()[Node::seq_of(self.left).len() as int] == self.val);
        }
        match target.key_cmp(&self.val) {
            core::cmp::Ordering::Equal => {
                let left_best = match &self.left {
                    Some(l) => {
                        proof {
                            assert(Node::seq_of(self.left) == l.seq());
                        }
                        let c = l.farthest_to(target, by);
                        proof {
                            let j = choose|j: int| 0 <= j < l.seq().len() && l.seq()[j] == *c;
                            assert(self.seq()[j] == *c);
                        }
                        Some(c)
                    }
                    None => None,
                };
                let right_best = match &self.right {
                    Some(rn) => {
                        proof {
                            assert(Node::seq_of(self.right) == rn.seq());
                        }
                        let c = rn.farthest_to(target, by);
                        proof {
                            let j = choose|j: int|
                                0 <= j < rn.seq().len() && rn.seq()[j] == *c;
                            assert(self.seq()[Node::seq_of(self.left).len() + 1 + j] == *c);
                        }
                        Some(c)
                    }
                    None => None,
                };
                match (left_best, right_best) {
                    (Some(a), Some(b)) => by.pick(a, b),
                    (Some(a), None) => by.pick(&self.val, a),
                    (None, Some(b)) => by.pick(&self.val, b),
                    (None, None) => &self.val,
                }
            }
            core::cmp::Ordering::Greater => {
                match &self.left {
                    Some(l) => {
                        proof {
                            assert(Node::seq_of(self.left) == l.seq());
                        }
                        let c = l.farthest_to(target, by);
                        proof {
                            let j = choose|j: int| 0 <= j < l.seq().len() && l.seq()[j] == *c;
                            assert(self.seq()[j] == *c);
                        }
                        by.pick(&self.val, c)
                    }
                    None => &self.val,
                }
            }
            core::cmp::Ordering::Less => {
                match &self.right {
                    Some(rn) => {
                        proof {
                            assert(Node::seq_of(self.right) == rn.seq());
                        }
                        let c = rn.farthest_to(target, by);
                        proof {
                            let j = choose|j: int|
                                0 <= j < rn.seq().len() && rn.seq()[j] == *c;
                            assert(self.seq()[Node::seq_of(self.left).len() + 1 + j] == *c);
                        }
                        by.pick(&self.val, c)
                    }
                    None => &self.val,
                }
            }
        }
    }
}

impl<T: Nearness> Node<T> {
    /// The element whose key is nearest to the target's key. The search
    /// descends only toward the target's side: once the order places the
    /// target strictly to one side of an element, everything on the other
    /// side is farther away than the element itself.
    pub(crate) fn nearest(&self, target: &T) -> (r: &T)
        requires
            self.wf(),
        ensures
            self.seq().contains(*r),
            forall|i: int| 0 <= i < self.seq().len()
                ==> dist(r.key(), target.key())
                    <= dist(#[trigger] self.seq()[i].key(), target.key()),
        decreases self,
    {
        proof {
            assert(self.seq()[Node::seq_of(self.left).len() as int] == self.val);
            assert(self.seq().len()
                == Node::seq_of(self.left).len() + 1 + Node::seq_of(self.right).len());
        }
        let ghost l0 = Node::seq_of(self.left);
        let ghost r0 = Node::seq_of(self.right);
        match target.key_cmp(&self.val) {
            core::cmp::Ordering::Equal => {
                proof {
                    assert forall|i: int| 0 <= i < self.seq().len()
                        implies dist(self.val.key(), target.key())
                            <= dist(#[trigger] self.seq()[i].key(), target.key()) by {}
                }
                &self.val
            }
            core::cmp::Ordering::Greater => {
                match &self.right {
                    Some(rn) => {
                        proof {
                            assert(Node::seq_of(self.right) == rn.seq());
                        }
                        let c = rn.nearest(target);
                        let picked = self.val.nearer(c, target);
                        proof {
                            let j = choose|j: int|
                                0 <= j < rn.seq().len() && rn.seq()[j] == *c;
                            assert(self.seq()[l0.len() + 1 + j] == *c);
                            assert forall|i: int| 0 <= i < self.seq().len()
                                implies dist(picked.key(), target.key())
                                    <= dist(#[trigger] self.seq()[i].key(), target.key())
                            by {
                                if i < l0.len() {
                                    assert(self.seq()[i] == l0[i]);
                                    assert(l0[i].key() <= self.val.key());
                                } else if i > l0.len() {
                                    assert(self.seq()[i] == r0[i - l0.len() - 1]);
                                }
                            }
                        }
                        picked
                    }
                    None => {
                        proof {
                            assert forall|i: int| 0 <= i < self.seq().len()
                                implies dist(self.val.key(), target.key())
                                    <= dist(#[trigger] self.seq()[i].key(), target.key())
                            by {
                                if i < l0.len() {
                                    assert(self.seq()[i] == l0[i]);
                                    assert(l0[i].key() <= self.val.key());
                                }
                            }
                        }
                        &self.val
                    }
                }
            }
            core::cmp::Ordering::Less => {
                match &self.left {
                    Some(l) => {
                        proof {
                            assert(Node::seq_of(self.left) == l.seq());
                        }
                        let c = l.nearest(target);
                        let picked = self.val.nearer(c, target);
                        proof {
                            let j = choose|j: int| 0 <= j < l.seq().len() && l.seq()[j] == *c;
                            assert(self.seq()[j] == *c);
                            assert forall|i: int| 0 <= i < self.seq().len()
                                implies dist(picked.key(), target.key())
                                    <= dist(#[trigger] self.seq()[i].key(), target.key())
                            by {
                                if i < l0.len() {
                                    assert(self.seq()[i] == l0[i]);
                                } else if i > l0.len() {
                                    assert(self.seq()[i] == r0[i - l0.len() - 1]);
                                    assert(r0[i - l0.len() - 1].key() >= self.val.key());
                                }
                            }
                        }
                        picked
                    }
                    None => {
                        proof {
                            assert forall|i: int| 0 <= i < self.seq().len()
                                implies dist(self.val.key(), target.key())
                                    <= dist(#[trigger] self.seq()[i].key(), target.key())
                            by {
                                if i > l0.len() {
                                    assert(self.seq()[i] == r0[i - l0.len() - 1]);
                                    assert(r0[i - l0.len() - 1].key() >= self.val.key());
                                }
                            }
                        }
                        &self.val
                    }
                }
            }
        }
    }
}

} // verus!
