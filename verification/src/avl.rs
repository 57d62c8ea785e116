//! The tree engine: a root-owning container that keeps the AVL balance
//! invariant across insertion and deletion, together with its queries.
//!
//! The abstract state of a tree is its in-order sequence of elements,
//! written `t@`; well-formedness (`t.wf()`) ties the stored element count to
//! that sequence and holds the structural invariants of every node.

use vstd::prelude::*;
use crate::iters::Decreasing;
use crate::iters::GreaterThan;
use crate::iters::Increasing;
use crate::iters::IntoDecreasing;
use crate::iters::IntoIncreasing;
use crate::iters::IntoIter;
use crate::iters::Iter;
use crate::iters::Levels;
use crate::iters::LessThan;
use crate::keyed::Chooser;
use crate::keyed::FartherFrom;
use crate::keyed::cost_consistent;
use crate::keyed::Keyed;
use crate::keyed::Nearness;
use crate::keyed::Probe;
use crate::keyed::dist;
use crate::node::Node;
use crate::node::gt_key;
use crate::node::has_key;
use crate::node::inserted;
use crate::node::le_key;
use crate::node::lemma_inserted_key_unique;
use crate::node::lemma_inserted_multiset;
use crate::node::lt_key;
use crate::node::max_count;
use crate::node::min_count;
use crate::node::sorted_by_key;

verus! {

/// A self-balancing binary search tree: for every node, the heights of its
/// two subtrees differ by at most one, so insertion, deletion and lookup all
/// walk at most a logarithmic number of nodes. Elements are ordered by their
/// mathematical key; elements with equal keys may coexist.
pub struct AVL<T: Keyed> {
    pub(crate) root: Option<Box<Node<T>>>,
    len: usize,
}

impl<T: Keyed> View for AVL<T> {
    type V = Seq<T>;

    closed spec fn view(&self) -> Seq<T> {
        Node::seq_of(self.root)
    }
}

impl<T: Keyed> AVL<T> {
    /// Well-formedness: every node satisfies the AVL balance invariant and
    /// the search-order invariant, every cached height is the real one, and
    /// the stored length counts the elements.
    pub closed spec fn wf(&self) -> bool {
        &&& Node::wf_of(self.root)
        &&& self.len as int == Node::seq_of(self.root).len()
    }

    /// The real height of the tree: 0 when empty, else one more than the
    /// taller subtree of the root, computed over the whole structure.
    pub closed spec fn height_spec(&self) -> int {
        Node::height_of(self.root)
    }

    /// The elements of a well-formed tree are sorted by key.
    pub proof fn lemma_sorted(&self)
        requires
            self.wf(),
        ensures
            sorted_by_key(self@),
    {
        Node::lemma_wf_sorted(self.root);
    }

    /// A well-formed tree is no taller than its element count, and is empty
    /// exactly when its height is zero.
    pub proof fn lemma_height_bounds(&self)
        requires
            self.wf(),
        ensures
            0 <= self.height_spec() <= self@.len(),
            self.height_spec() == 0 <==> self@.len() == 0,
    {
        Node::lemma_height_le_len(self.root);
        if let Some(n) = self.root {
            assert(n.wf());
            assert(self@ == n.seq());
            assert(self@.len()
                == Node::seq_of(n.left).len() + 1 + Node::seq_of(n.right).len());
            Node::lemma_height_le_len(n.left);
            Node::lemma_height_le_len(n.right);
        }
    }

    /// Balance pins the tree's height between two bounds of its element
    /// count: at least `min_count(h)` elements (a bound that grows like the
    /// Fibonacci numbers, so the height is logarithmic in the count) and at
    /// most `max_count(h)`, the full binary tree. Together the two bounds
    /// often determine the height of a small tree exactly.
    pub proof fn lemma_balanced_dense(&self)
        requires
            self.wf(),
        ensures
            min_count(self.height_spec()) <= self@.len() <= max_count(self.height_spec()),
    {
        Node::lemma_min_count_of(self.root);
        Node::lemma_max_count_of(self.root);
    }

    /// Creates an empty tree.
    pub fn new() -> (t: Self)
        ensures
            t.wf(),
            t@ == Seq::<T>::empty(),
            t.height_spec() == 0,
    {
        AVL { root: None, len: 0 }
    }

    /// The number of elements, kept up to date on every mutation.
    pub fn len(&self) -> (n: usize)
        requires
            self.wf(),
        ensures
            n == self@.len(),
    {
        self.len
    }

    /// Whether the tree holds no element.
    pub fn is_empty(&self) -> (r: bool)
        requires
            self.wf(),
        ensures
            r == (self@.len() == 0),
    {
        self.len == 0
    }

    /// The height of the tree, read from the root's cached height.
    pub fn height(&self) -> (h: usize)
        requires
            self.wf(),
        ensures
            h as int == self.height_spec(),
    {
        match &self.root {
            Some(root) => {
                proof {
                    assert(root.wf());
                }
                root.height
            }
            None => 0,
        }
    }

    /// Empties the tree.
    pub fn clear(&mut self)
        ensures
            final(self).wf(),
            final(self)@ == Seq::<T>::empty(),
            final(self).height_spec() == 0,
    {
        self.len = 0;
        self.root = None;
    }

    /// Insert `val`, keeping duplicates: an element whose key is already
    /// present goes into the greater-or-equal branch.
    pub fn insert(&mut self, val: T)
        requires
            old(self).wf(),
            old(self)@.len() < usize::MAX,
        ensures
            final(self).wf(),
            final(self)@ == inserted(old(self)@, val),
            final(self)@.len() == old(self)@.len() + 1,
            old(self).height_spec() <= final(self).height_spec()
                <= old(self).height_spec() + 1,
    {
        Node::insert(&mut self.root, val);
        self.len = self.len + 1;
    }

    /// Insert `val` unless an element with its key is already present; in
    /// that case overwrite that element in place. Returns whether a new
    /// element was created; the length grows only then, so room for one
    /// more element is needed only when the key is fresh.
    pub fn insert_distinct(&mut self, val: T) -> (r: bool)
        requires
            old(self).wf(),
            !has_key(old(self)@, val.key()) ==> old(self)@.len() < usize::MAX,
        ensures
            final(self).wf(),
            r <==> !has_key(old(self)@, val.key()),
            r ==> final(self)@ == inserted(old(self)@, val)
                && final(self)@.len() == old(self)@.len() + 1,
            !r ==> exists|i: int|
                0 <= i < old(self)@.len() && #[trigger] old(self)@[i].key() == val.key()
                && final(self)@ == old(self)@.update(i, val),
            !r ==> final(self)@.len() == old(self)@.len(),
    {
        let r = Node::insert_distinct(&mut self.root, val);
        if r {
            self.len = self.len + 1;
        }
        r
    }

    /// Remove one element whose key matches the probe, and return it; the
    /// tree is unchanged when no key matches.
    pub fn remove_by<P: Probe<T>>(&mut self, p: &P) -> (r: Option<T>)
        requires
            old(self).wf(),
        ensures
            final(self).wf(),
            r is Some <==> has_key(old(self)@, p.probe_key()),
            r is None ==> *final(self) == *old(self),
            r matches Some(v) ==> v.key() == p.probe_key() && exists|i: int|
                0 <= i < old(self)@.len() && #[trigger] old(self)@[i] == v
                && final(self)@ == old(self)@.remove(i),
            final(self)@.len() == old(self)@.len() - (if r is Some { 1int } else { 0 }),
    {
        let r = Node::remove_by(&mut self.root, p);
        if r.is_some() {
            self.len = self.len - 1;
        }
        proof {
            if r is Some {
                let v = r.unwrap();
                let i = choose|i: int|
                    0 <= i < Node::seq_of(old(self).root).len()
                    && #[trigger] Node::seq_of(old(self).root)[i] == v
                    && Node::seq_of(old(self).root)[i].key() == p.probe_key()
                    && Node::seq_of(self.root) == Node::seq_of(old(self).root).remove(i);
                assert(old(self)@[i] == v);
            }
        }
        r
    }

    /// Remove one element whose key equals `val`'s, and return it.
    pub fn remove(&mut self, val: &T) -> (r: Option<T>)
        requires
            old(self).wf(),
        ensures
            final(self).wf(),
            r is Some <==> has_key(old(self)@, val.key()),
            r is None ==> *final(self) == *old(self),
            r matches Some(v) ==> v.key() == val.key() && exists|i: int|
                0 <= i < old(self)@.len() && #[trigger] old(self)@[i] == v
                && final(self)@ == old(self)@.remove(i),
            final(self)@.len() == old(self)@.len() - (if r is Some { 1int } else { 0 }),
    {
        self.remove_by(val)
    }

    /// Remove one element whose key equals `val`'s; reports whether one was
    /// found and removed.
    pub fn delete(&mut self, val: &T) -> (r: bool)
        requires
            old(self).wf(),
        ensures
            final(self).wf(),
            r <==> has_key(old(self)@, val.key()),
            !r ==> *final(self) == *old(self),
            r ==> exists|i: int|
                0 <= i < old(self)@.len() && #[trigger] old(self)@[i].key() == val.key()
                && final(self)@ == old(self)@.remove(i),
            final(self)@.len() == old(self)@.len() - (if r { 1int } else { 0 }),
    {
        let removed = self.remove_by(val);
        proof {
            if removed is Some {
                let v = removed.unwrap();
                let i = choose|i: int|
                    0 <= i < old(self)@.len() && #[trigger] old(self)@[i] == v
                    && final(self)@ == old(self)@.remove(i);
                assert(old(self)@[i].key() == val.key());
            }
        }
        removed.is_some()
    }

    /// Whether some element's key equals `target`'s.
    pub fn contains(&self, target: &T) -> (r: bool)
        requires
            self.wf(),
        ensures
            r == has_key(self@, target.key()),
    {
        self.contains_by(target)
    }

    /// Whether some element's key matches the probe's.
    pub fn contains_by<P: Probe<T>>(&self, p: &P) -> (r: bool)
        requires
            self.wf(),
        ensures
            r == has_key(self@, p.probe_key()),
    {
        match &self.root {
            Some(n) => {
                proof {
                    assert(self@ == n.seq());
                }
                n.contains_by(p)
            }
            None => {
                proof {
                    assert(!has_key(self@, p.probe_key()));
                }
                false
            }
        }
    }

    /// A reference to an element whose key matches the probe's, if any.
    pub fn get_by<'a, P: Probe<T>>(&'a self, p: &P) -> (r: Option<&'a T>)
        requires
            self.wf(),
        ensures
            r is Some <==> has_key(self@, p.probe_key()),
            r matches Some(v) ==> v.key() == p.probe_key() && self@.contains(*v),
    {
        match &self.root {
            Some(n) => {
                proof {
                    assert(self@ == n.seq());
                }
                n.get_by(p)
            }
            None => {
                proof {
                    assert(!has_key(self@, p.probe_key()));
                }
                None
            }
        }
    }

    /// A mutable reference to an element whose key matches the probe's, if
    /// any, together with the element's position in the in-order sequence.
    /// The caller may change the element in place; the tree stays
    /// well-formed provided the element's key is left unchanged.
    pub fn get_mut_by<'a, P: Probe<T>>(&'a mut self, p: &P) -> (r: (Option<&'a mut T>,
        Ghost<int>))
        requires
            old(self).wf(),
        ensures
            r.0 is None ==> !has_key(old(self)@, p.probe_key())
                && *final(self) == *old(self),
            r.0 matches Some(v) ==> {
                let i = r.1@;
                &&& 0 <= i < old(self)@.len()
                &&& old(self)@[i] == *v
                &&& (*v).key() == p.probe_key()
                &&& (final(self)@ =~= old(self)@.update(i, *final(v)))
                &&& ((*final(v)).key() == (*v).key() ==> final(self).wf())
            },
    {
        match &mut self.root {
            Some(b) => {
                proof {
                    assert(old(self)@ == old(self).root.unwrap().seq());
                }
                let (r, g) = Node::get_mut_by(&mut **b, p);
                (r, g)
            }
            None => (None, Ghost(0)),
        }
    }

    /// The greatest element, or nothing when the tree is empty.
    pub fn max(&self) -> (r: Option<&T>)
        requires
            self.wf(),
        ensures
            r is None <==> self@.len() == 0,
            r matches Some(v) ==> *v == self@.last(),
    {
        match &self.root {
            Some(n) => {
                proof {
                    assert(self@ == n.seq());
                }
                Some(n.find_max())
            }
            None => None,
        }
    }

    /// The least element, or nothing when the tree is empty.
    pub fn min(&self) -> (r: Option<&T>)
        requires
            self.wf(),
        ensures
            r is None <==> self@.len() == 0,
            r matches Some(v) ==> *v == self@.first(),
    {
        match &self.root {
            Some(n) => {
                proof {
                    assert(self@ == n.seq());
                }
                Some(n.find_min())
            }
            None => None,
        }
    }

    /// In-order ascending iterator borrowing the tree: it yields exactly the
    /// tree's elements, in key order.
    pub fn increasing(&self) -> (it: Increasing<T>)
        requires
            self.wf(),
        ensures
            it.wf(),
            it.remaining() == self@,
    {
        Increasing::new(&self.root)
    }

    /// In-order descending iterator borrowing the tree: the exact reverse of
    /// the ascending one.
    pub fn decreasing(&self) -> (it: Decreasing<T>)
        requires
            self.wf(),
        ensures
            it.wf(),
            it.remaining() == self@.reverse(),
    {
        Decreasing::new(&self.root)
    }

    /// In-order ascending iterator that consumes the tree.
    pub fn into_increasing(self) -> (it: IntoIncreasing<T>)
        requires
            self.wf(),
        ensures
            it.wf(),
            it.remaining() == self@,
    {
        IntoIncreasing::new(self.root)
    }

    /// In-order descending iterator that consumes the tree.
    pub fn into_decreasing(self) -> (it: IntoDecreasing<T>)
        requires
            self.wf(),
        ensures
            it.wf(),
            it.remaining() == self@.reverse(),
    {
        IntoDecreasing::new(self.root)
    }

    /// Unordered (pre-order) iterator borrowing the tree: it yields exactly
    /// the tree's elements, each once.
    pub fn iter(&self) -> (it: Iter<T>)
        requires
            self.wf(),
        ensures
            it.wf(),
            it.remaining().to_multiset() == self@.to_multiset(),
            it.remaining().len() == self@.len(),
    {
        let it = Iter::new(&self.root);
        proof {
            self@.to_multiset_ensures();
            it.remaining().to_multiset_ensures();
        }
        it
    }

    /// Unordered (pre-order) iterator that consumes the tree.
    pub fn into_iter(self) -> (it: IntoIter<T>)
        requires
            self.wf(),
        ensures
            it.wf(),
            it.remaining().to_multiset() == self@.to_multiset(),
            it.remaining().len() == self@.len(),
    {
        let it = IntoIter::new(self.root);
        proof {
            self@.to_multiset_ensures();
            it.remaining().to_multiset_ensures();
        }
        it
    }

    /// Ascending view of the elements whose key exceeds `lower`'s.
    pub fn greater_than<'a>(&'a self, lower: &'a T) -> (it: GreaterThan<'a, T>)
        requires
            self.wf(),
        ensures
            it.wf(),
            it.remaining() == self@.filter(gt_key(lower.key())),
    {
        GreaterThan::new(&self.root, lower)
    }

    /// Descending view of the elements whose key is below `upper`'s.
    pub fn less_than<'a>(&'a self, upper: &'a T) -> (it: LessThan<'a, T>)
        requires
            self.wf(),
        ensures
            it.wf(),
            it.remaining() == self@.reverse().filter(lt_key(upper.key())),
    {
        LessThan::new(&self.root, upper)
    }

    /// Breadth-first walk of the tree: as many levels as the tree is tall,
    /// each level showing the elements at that depth with explicit gaps for
    /// absent children.
    pub fn levels(&self) -> (it: Levels<T>)
        requires
            self.wf(),
        ensures
            it.depth() == self.height_spec(),
            self@.len() == 0 ==> it.current_vals() == seq![None::<T>],
            self@.len() > 0 ==> exists|i: int|
                0 <= i < self@.len() && it.current_vals() == seq![Some(#[trigger] self@[i])],
    {
        let h = self.height();
        match &self.root {
            Some(b) => {
                let n: &Node<T> = &**b;
                let it = Levels::new(Some(n), h);
                proof {
                    assert(self@ == n.seq());
                    assert(self@[Node::seq_of(n.left).len() as int] == n.val);
                }
                it
            }
            None => {
                let it = Levels::new(None, h);
                proof {
                    assert(self@ =~= Seq::<T>::empty());
                }
                it
            }
        }
    }

    /// Merge two trees: the elements of the smaller one are inserted into
    /// the larger one, so the result holds every element of both, duplicates
    /// kept.
    pub fn union(self, other: Self) -> (r: Self)
        requires
            self.wf(),
            other.wf(),
            self@.len() + other@.len() <= usize::MAX,
        ensures
            r.wf(),
            r@.to_multiset() == self@.to_multiset().add(other@.to_multiset()),
            r@.len() == self@.len() + other@.len(),
    {
        let ghost total_ms = self@.to_multiset().add(other@.to_multiset());
        let ghost total_len = self@.len() + other@.len();
        proof {
            self@.to_multiset_ensures();
            other@.to_multiset_ensures();
        }
        let (mut big, small) = if self.len() > other.len() {
            (self, other)
        } else {
            (other, self)
        };
        let mut it = small.into_iter();
        loop
            invariant
                big.wf(),
                it.wf(),
                big@.to_multiset().add(it.remaining().to_multiset()) == total_ms,
                big@.len() + it.remaining().len() == total_len,
                total_len <= usize::MAX,
            ensures
                big.wf(),
                it.remaining().len() == 0,
                big@.to_multiset().add(it.remaining().to_multiset()) == total_ms,
                big@.len() + it.remaining().len() == total_len,
            decreases it.remaining().len(),
        {
            let ghost rem0 = it.remaining();
            match it.next() {
                None => {
                    break;
                }
                Some(v) => {
                    proof {
                        assert(rem0 == seq![v] + it.remaining());
                        vstd::seq_lib::lemma_multiset_commutative(seq![v], it.remaining());
                        Seq::<T>::empty().to_multiset_ensures();
                        vstd::multiset::lemma_multiset_empty_len(
                            Seq::<T>::empty().to_multiset());
                        assert(seq![v] == Seq::<T>::empty().push(v));
                        assert(rem0.to_multiset()
                            =~= it.remaining().to_multiset().insert(v));
                        lemma_inserted_multiset(big@, v);
                    }
                    big.insert(v);
                    proof {
                        assert(big@.to_multiset().add(it.remaining().to_multiset())
                            =~= total_ms);
                    }
                }
            }
        }
        proof {
            it.remaining().to_multiset_ensures();
            vstd::multiset::lemma_multiset_empty_len(it.remaining().to_multiset());
            assert(big@.to_multiset() =~= total_ms);
        }
        big
    }

    /// An element picked by walking toward `target` and combining each
    /// element left behind with the best of its subtree through the
    /// chooser. When the chooser's cost agrees with the key order around
    /// the target — as a nearness metric does — the result minimizes that
    /// cost over the whole tree.
    pub fn nearest_to<'a, C: Chooser<T>>(&'a self, target: &'a T, by: &C) -> (r: Option<&'a T>)
        requires
            self.wf(),
        ensures
            r is None <==> self@.len() == 0,
            r matches Some(v) ==> self@.contains(*v),
            cost_consistent(*by, *target) ==> (r matches Some(v) ==> forall|i: int|
                0 <= i < self@.len() ==> by.cost(v) <= #[trigger] by.cost(&self@[i])),
    {
        match &self.root {
            Some(n) => {
                proof {
                    assert(self@ == n.seq());
                }
                Some(n.nearest_to(target, by))
            }
            None => None,
        }
    }

    /// Some element, picked by walking away from `target` and combining
    /// candidates through the chooser; at an element with the target's key
    /// both subtrees are explored.
    pub fn farthest_to<'a, C: Chooser<T>>(&'a self, target: &'a T, by: &C) -> (r: Option<
        &'a T>)
        requires
            self.wf(),
        ensures
            r is None <==> self@.len() == 0,
            r matches Some(v) ==> self@.contains(*v),
    {
        match &self.root {
            Some(n) => {
                proof {
                    assert(self@ == n.seq());
                }
                Some(n.farthest_to(target, by))
            }
            None => None,
        }
    }
}

/// Round trip: deleting the key of a freshly inserted element undoes the
/// insertion. `inserted(s, v)` is the view after `insert` on a tree viewed
/// as `s`; the removal may pick any index carrying the key — there is
/// exactly one, and it holds `v` — and the contents and length of `s` come
/// back. A tree emptied of everything it received thus returns to length
/// zero, and by `lemma_height_bounds` to height zero.
pub proof fn lemma_insert_remove_roundtrip<T: Keyed>(s: Seq<T>, v: T, i: int)
    requires
        !has_key(s, v.key()),
        0 <= i < inserted(s, v).len(),
        inserted(s, v)[i].key() == v.key(),
    ensures
        inserted(s, v)[i] == v,
        inserted(s, v).remove(i).to_multiset() == s.to_multiset(),
        inserted(s, v).remove(i).len() == s.len(),
{
    let ins = inserted(s, v);
    lemma_inserted_key_unique(s, v);
    let c = s.filter(le_key::<T>(v.key())).len() as int;
    assert(i == c);
    lemma_inserted_multiset(s, v);
    ins.to_multiset_ensures();
    crate::node::lemma_inserted_bounds(s, v, v.key());
    assert(ins.remove(i).to_multiset() =~= s.to_multiset());
    s.to_multiset_ensures();
    ins.remove(i).to_multiset_ensures();
}

/// Idempotence of distinct insertion: after a distinct-insert of `v1`
/// under a fresh key, a second distinct-insert with the same key finds it
/// (and so reports that nothing new was inserted) and overwrites in place:
/// exactly one element carries the key afterwards, and it is `v2`.
pub proof fn lemma_insert_distinct_idempotent<T: Keyed>(s: Seq<T>, v1: T, v2: T, i: int)
    requires
        !has_key(s, v1.key()),
        v2.key() == v1.key(),
        0 <= i < inserted(s, v1).len(),
        inserted(s, v1)[i].key() == v2.key(),
    ensures
        has_key(inserted(s, v1), v2.key()),
        inserted(s, v1).update(i, v2)[i] == v2,
        forall|j: int|
            0 <= j < inserted(s, v1).update(i, v2).len() && j != i
            ==> #[trigger] inserted(s, v1).update(i, v2)[j].key() != v2.key(),
{
    let ins = inserted(s, v1);
    lemma_inserted_key_unique(s, v1);
    let c = s.filter(le_key::<T>(v1.key())).len() as int;
    assert(i == c);
    assert(ins[i].key() == v2.key());
    let upd = ins.update(i, v2);
    assert forall|j: int| 0 <= j < upd.len() && j != i implies
        #[trigger] upd[j].key() != v2.key() by {
        assert(upd[j] == ins[j]);
    }
}

impl<T: Nearness> AVL<T> {
    /// The element whose key is nearest to `target`'s key: no element of the
    /// tree is strictly nearer.
    pub fn nearest<'a>(&'a self, target: &'a T) -> (r: Option<&'a T>)
        requires
            self.wf(),
        ensures
            r is None <==> self@.len() == 0,
            r matches Some(v) ==> self@.contains(*v) && forall|i: int|
                0 <= i < self@.len()
                ==> dist(v.key(), target.key()) <= dist(#[trigger] self@[i].key(),
                    target.key()),
    {
        match &self.root {
            Some(n) => {
                proof {
                    assert(self@ == n.seq());
                }
                Some(n.nearest(target))
            }
            None => None,
        }
    }

    /// An element far from `target`: the walk crosses away from the target's
    /// side and combines candidates by the larger key distance.
    pub fn farthest<'a>(&'a self, target: &'a T) -> (r: Option<&'a T>)
        requires
            self.wf(),
        ensures
            r is None <==> self@.len() == 0,
            r matches Some(v) ==> self@.contains(*v),
    {
        self.farthest_to(target, &(FartherFrom { target }))
    }
}

} // verus!
