//! Traversal iterators over the tree: in-order ascending and descending,
//! each in a borrowing and a consuming form, a pre-order sweep in both
//! forms, threshold-bounded views over the ordered traversals, and a
//! breadth-first walk of the levels.
//!
//! The ordered iterators keep an explicit stack of ancestors instead of
//! recursing: the stack holds every node whose element is still to be
//! yielded and whose left spine has been walked. Stepping pops a node,
//! yields its element and pushes the left spine of its right subtree, so a
//! full traversal does constant amortized work per element.

use vstd::prelude::*;
use vstd::seq_lib::lemma_multiset_commutative;
use crate::keyed::Keyed;
use crate::node::Node;
use crate::node::gt_key;
use crate::node::lemma_filter_one;
use crate::node::lt_key;

verus! {

/// The pre-order sequence of an optional subtree: each element before
/// everything below it, left subtree before right.
pub(crate) open spec fn preorder_of<T: Keyed>(o: Option<Box<Node<T>>>) -> Seq<T>
    decreases o,
{
    match o {
        None => Seq::empty(),
        Some(n) => preorder(*n),
    }
}

pub(crate) open spec fn preorder<T: Keyed>(n: Node<T>) -> Seq<T>
    decreases n,
{
    seq![n.val] + preorder_of(n.left) + preorder_of(n.right)
}

/// The pre-order sequence is a permutation of the in-order sequence.
pub(crate) proof fn lemma_preorder_multiset<T: Keyed>(o: Option<Box<Node<T>>>)
    ensures
        preorder_of(o).to_multiset() == Node::seq_of(o).to_multiset(),
    decreases o,
{
    if let Some(n) = o {
        lemma_preorder_multiset(n.left);
        lemma_preorder_multiset(n.right);
        let l = Node::seq_of(n.left);
        let r = Node::seq_of(n.right);
        let pl = preorder_of(n.left);
        let pr = preorder_of(n.right);
        lemma_multiset_commutative(seq![n.val] + pl, pr);
        lemma_multiset_commutative(seq![n.val], pl);
        lemma_multiset_commutative(l + seq![n.val], r);
        lemma_multiset_commutative(l, seq![n.val]);
        assert(preorder_of(o).to_multiset()
            =~= Node::seq_of(o).to_multiset());
    }
}

/// The in-order sequence of an optional borrowed subtree.
pub(crate) open spec fn opt_ref_seq<T: Keyed>(o: Option<&Node<T>>) -> Seq<T> {
    match o {
        None => Seq::empty(),
        Some(n) => n.seq(),
    }
}

pub(crate) open spec fn opt_ref_wf<T: Keyed>(o: Option<&Node<T>>) -> bool {
    match o {
        None => true,
        Some(n) => n.wf(),
    }
}

/// What remains of an ascending traversal whose ancestor stack is `s`: the
/// top node's element and right subtree, then the same below it.
pub(crate) open spec fn rest_asc<T: Keyed>(s: Seq<&Node<T>>) -> Seq<T>
    decreases s.len(),
{
    if s.len() == 0 {
        Seq::empty()
    } else {
        (seq![s.last().val] + Node::seq_of(s.last().right)) + rest_asc(s.drop_last())
    }
}

/// In-order ascending iterator borrowing the tree.
pub struct Increasing<'a, T: Keyed> {
    stack: Vec<&'a Node<T>>,
}

impl<'a, T: Keyed> Increasing<'a, T> {
    /// The elements not yet yielded, in the order they will come.
    pub closed spec fn remaining(self) -> Seq<T> {
        rest_asc(self.stack@)
    }

    pub closed spec fn wf(self) -> bool {
        forall|i: int| 0 <= i < self.stack@.len() ==> (#[trigger] self.stack@[i]).wf()
    }

    /// Walk down the left spine of `cur`, stacking every node passed.
    fn descend(stack: &mut Vec<&'a Node<T>>, cur: Option<&'a Node<T>>)
        requires
            opt_ref_wf(cur),
            forall|i: int| 0 <= i < old(stack)@.len() ==> (#[trigger] old(stack)@[i]).wf(),
        ensures
            rest_asc(final(stack)@) == opt_ref_seq(cur) + rest_asc(old(stack)@),
            forall|i: int| 0 <= i < final(stack)@.len() ==> (#[trigger] final(stack)@[i]).wf(),
    {
        let ghost target = opt_ref_seq(cur) + rest_asc(old(stack)@);
        let mut cur = cur;
        while cur.is_some()
            invariant
                opt_ref_wf(cur),
                forall|i: int| 0 <= i < stack@.len() ==> (#[trigger] stack@[i]).wf(),
                opt_ref_seq(cur) + rest_asc(stack@) == target,
            decreases opt_ref_seq(cur).len(),
        {
            let n = cur.unwrap();
            proof {
                assert(n.wf());
                assert(n.seq().len()
                    == Node::seq_of(n.left).len() + 1 + Node::seq_of(n.right).len());
            }
            let ghost s0 = stack@;
            stack.push(n);
            cur = match &n.left {
                Some(b) => Some(&**b),
                None => None,
            };
            proof {
                assert(stack@.drop_last() =~= s0);
                assert(stack@.last() == n);
                assert(opt_ref_seq(cur) == Node::seq_of(n.left));
                assert(opt_ref_seq(cur) + rest_asc(stack@) =~= target);
            }
        }
        proof {
            assert(opt_ref_seq(cur) =~= Seq::<T>::empty());
            assert(rest_asc(stack@) =~= target);
        }
    }

    pub(crate) fn new(root: &'a Option<Box<Node<T>>>) -> (it: Self)
        requires
            Node::wf_of(*root),
        ensures
            it.wf(),
            it.remaining() == Node::seq_of(*root),
    {
        let mut stack: Vec<&'a Node<T>> = Vec::new();
        let cur: Option<&'a Node<T>> = match root {
            Some(b) => Some(&**b),
            None => None,
        };
        proof {
            assert(rest_asc(stack@) =~= Seq::<T>::empty());
            assert(opt_ref_seq(cur) == Node::seq_of(*root));
        }
        Self::descend(&mut stack, cur);
        proof {
            assert(rest_asc(stack@) =~= Node::seq_of(*root));
        }
        Increasing { stack }
    }

    /// The next element in ascending order, or nothing once every element
    /// has been yielded.
    pub fn next(&mut self) -> (r: Option<&'a T>)
        requires
            old(self).wf(),
        ensures
            final(self).wf(),
            r is None <==> old(self).remaining().len() == 0,
            r is None ==> final(self).remaining() == old(self).remaining(),
            r matches Some(v) ==> old(self).remaining().len() > 0
                && *v == old(self).remaining()[0]
                && final(self).remaining() == old(self).remaining().drop_first(),
    {
        let ghost s0 = self.stack@;
        match self.stack.pop() {
            None => {
                proof {
                    assert(s0 =~= Seq::<&Node<T>>::empty());
                }
                None
            }
            Some(n) => {
                proof {
                    assert(s0.last() == n);
                    assert(n.wf());
                    assert(self.stack@ == s0.drop_last());
                    assert(old(self).remaining()
                        == (seq![n.val] + Node::seq_of(n.right)) + rest_asc(s0.drop_last()));
                }
                let cur: Option<&'a Node<T>> = match &n.right {
                    Some(b) => Some(&**b),
                    None => None,
                };
                Self::descend(&mut self.stack, cur);
                proof {
                    assert(self.remaining() =~= old(self).remaining().drop_first());
                }
                Some(&n.val)
            }
        }
    }
}

/// Reversal swaps the two sides of an in-order decomposition.
pub(crate) proof fn lemma_reverse_parts<A>(l: Seq<A>, m: A, r: Seq<A>)
    ensures
        (l + seq![m] + r).reverse() == r.reverse() + seq![m] + l.reverse(),
{
    assert((l + seq![m] + r).reverse() =~= r.reverse() + seq![m] + l.reverse());
}

/// What remains of a descending traversal whose ancestor stack is `s`.
pub(crate) open spec fn rest_desc<T: Keyed>(s: Seq<&Node<T>>) -> Seq<T>
    decreases s.len(),
{
    if s.len() == 0 {
        Seq::empty()
    } else {
        (seq![s.last().val] + Node::seq_of(s.last().left).reverse()) + rest_desc(s.drop_last())
    }
}

/// In-order descending iterator borrowing the tree.
pub struct Decreasing<'a, T: Keyed> {
    stack: Vec<&'a Node<T>>,
}

impl<'a, T: Keyed> Decreasing<'a, T> {
    /// The elements not yet yielded, in the order they will come: the
    /// reverse of the ascending order.
    pub closed spec fn remaining(self) -> Seq<T> {
        rest_desc(self.stack@)
    }

    pub closed spec fn wf(self) -> bool {
        forall|i: int| 0 <= i < self.stack@.len() ==> (#[trigger] self.stack@[i]).wf()
    }

    /// Walk down the right spine of `cur`, stacking every node passed.
    fn descend(stack: &mut Vec<&'a Node<T>>, cur: Option<&'a Node<T>>)
        requires
            opt_ref_wf(cur),
            forall|i: int| 0 <= i < old(stack)@.len() ==> (#[trigger] old(stack)@[i]).wf(),
        ensures
            rest_desc(final(stack)@) == opt_ref_seq(cur).reverse() + rest_desc(old(stack)@),
            forall|i: int| 0 <= i < final(stack)@.len() ==> (#[trigger] final(stack)@[i]).wf(),
    {
        let ghost target = opt_ref_seq(cur).reverse() + rest_desc(old(stack)@);
        let mut cur = cur;
        while cur.is_some()
            invariant
                opt_ref_wf(cur),
                forall|i: int| 0 <= i < stack@.len() ==> (#[trigger] stack@[i]).wf(),
                opt_ref_seq(cur).reverse() + rest_desc(stack@) == target,
            decreases opt_ref_seq(cur).len(),
        {
            let n = cur.unwrap();
            proof {
                assert(n.wf());
                assert(n.seq().len()
                    == Node::seq_of(n.left).len() + 1 + Node::seq_of(n.right).len());
                lemma_reverse_parts(Node::seq_of(n.left), n.val, Node::seq_of(n.right));
            }
            let ghost s0 = stack@;
            stack.push(n);
            cur = match &n.right {
                Some(b) => Some(&**b),
                None => None,
            };
            proof {
                assert(stack@.drop_last() =~= s0);
                assert(stack@.last() == n);
                assert(opt_ref_seq(cur) == Node::seq_of(n.right));
                assert(opt_ref_seq(cur).reverse() + rest_desc(stack@) =~= target);
            }
        }
        proof {
            assert(opt_ref_seq(cur).reverse() =~= Seq::<T>::empty());
            assert(rest_desc(stack@) =~= target);
        }
    }

    pub(crate) fn new(root: &'a Option<Box<Node<T>>>) -> (it: Self)
        requires
            Node::wf_of(*root),
        ensures
            it.wf(),
            it.remaining() == Node::seq_of(*root).reverse(),
    {
        let mut stack: Vec<&'a Node<T>> = Vec::new();
        let cur: Option<&'a Node<T>> = match root {
            Some(b) => Some(&**b),
            None => None,
        };
        proof {
            assert(rest_desc(stack@) =~= Seq::<T>::empty());
            assert(opt_ref_seq(cur) == Node::seq_of(*root));
        }
        Self::descend(&mut stack, cur);
        proof {
            assert(rest_desc(stack@) =~= Node::seq_of(*root).reverse());
        }
        Decreasing { stack }
    }

    /// The next element in descending order, or nothing once every element
    /// has been yielded.
    pub fn next(&mut self) -> (r: Option<&'a T>)
        requires
            old(self).wf(),
        ensures
            final(self).wf(),
            r is None <==> old(self).remaining().len() == 0,
            r is None ==> final(self).remaining() == old(self).remaining(),
            r matches Some(v) ==> old(self).remaining().len() > 0
                && *v == old(self).remaining()[0]
                && final(self).remaining() == old(self).remaining().drop_first(),
    {
        let ghost s0 = self.stack@;
        match self.stack.pop() {
            None => {
                proof {
                    assert(s0 =~= Seq::<&Node<T>>::empty());
                }
                None
            }
            Some(n) => {
                proof {
                    assert(s0.last() == n);
                    assert(n.wf());
                    assert(self.stack@ == s0.drop_last());
                    assert(old(self).remaining()
                        == (seq![n.val] + Node::seq_of(n.left).reverse())
                            + rest_desc(s0.drop_last()));
                }
                let cur: Option<&'a Node<T>> = match &n.left {
                    Some(b) => Some(&**b),
                    None => None,
                };
                Self::descend(&mut self.stack, cur);
                proof {
                    assert(self.remaining() =~= old(self).remaining().drop_first());
                }
                Some(&n.val)
            }
        }
    }
}

/// What remains of a consuming ascending traversal: the stacked nodes have
/// had their left subtrees detached already, so only their element and
/// right subtree count.
pub(crate) open spec fn rest_asc_own<T: Keyed>(s: Seq<Box<Node<T>>>) -> Seq<T>
    decreases s.len(),
{
    if s.len() == 0 {
        Seq::empty()
    } else {
        (seq![s.last().val] + Node::seq_of(s.last().right)) + rest_asc_own(s.drop_last())
    }
}

/// In-order ascending iterator that consumes the tree, discarding each
/// structural shell as it goes.
pub struct IntoIncreasing<T: Keyed> {
    stack: Vec<Box<Node<T>>>,
}

impl<T: Keyed> IntoIncreasing<T> {
    /// The elements not yet yielded, in the order they will come.
    pub closed spec fn remaining(self) -> Seq<T> {
        rest_asc_own(self.stack@)
    }

    pub closed spec fn wf(self) -> bool {
        forall|i: int| 0 <= i < self.stack@.len()
            ==> Node::wf_of((#[trigger] self.stack@[i]).right)
    }

    /// Walk down the left spine of `cur`, detaching and stacking every node
    /// passed.
    fn descend(stack: &mut Vec<Box<Node<T>>>, cur: Option<Box<Node<T>>>)
        requires
            Node::wf_of(cur),
            forall|i: int| 0 <= i < old(stack)@.len()
                ==> Node::wf_of((#[trigger] old(stack)@[i]).right),
        ensures
            rest_asc_own(final(stack)@) == Node::seq_of(cur) + rest_asc_own(old(stack)@),
            forall|i: int| 0 <= i < final(stack)@.len()
                ==> Node::wf_of((#[trigger] final(stack)@[i]).right),
    {
        let ghost target = Node::seq_of(cur) + rest_asc_own(old(stack)@);
        let mut cur = cur;
        while cur.is_some()
            invariant
                Node::wf_of(cur),
                forall|i: int| 0 <= i < stack@.len()
                    ==> Node::wf_of((#[trigger] stack@[i]).right),
                Node::seq_of(cur) + rest_asc_own(stack@) == target,
            decreases Node::seq_of(cur).len(),
        {
            let mut b = cur.take().unwrap();
            proof {
                assert(b.wf());
                assert(b.seq().len()
                    == Node::seq_of(b.left).len() + 1 + Node::seq_of(b.right).len());
            }
            let ghost b0 = b;
            let l = b.left.take();
            let ghost s0 = stack@;
            stack.push(b);
            cur = l;
            proof {
                assert(stack@.drop_last() =~= s0);
                assert(stack@.last().val == b0.val);
                assert(stack@.last().right == b0.right);
                assert(Node::seq_of(cur) == Node::seq_of(b0.left));
                assert(Node::seq_of(cur) + rest_asc_own(stack@) =~= target);
            }
        }
        proof {
            assert(Node::seq_of(cur) =~= Seq::<T>::empty());
            assert(rest_asc_own(stack@) =~= target);
        }
    }

    pub(crate) fn new(root: Option<Box<Node<T>>>) -> (it: Self)
        requires
            Node::wf_of(root),
        ensures
            it.wf(),
            it.remaining() == Node::seq_of(root),
    {
        let mut stack: Vec<Box<Node<T>>> = Vec::new();
        proof {
            assert(rest_asc_own(stack@) =~= Seq::<T>::empty());
        }
        Self::descend(&mut stack, root);
        proof {
            assert(rest_asc_own(stack@) =~= Node::seq_of(root));
        }
        IntoIncreasing { stack }
    }

    /// The next element in ascending order, yielded by value.
    pub fn next(&mut self) -> (r: Option<T>)
        requires
            old(self).wf(),
        ensures
            final(self).wf(),
            r is None <==> old(self).remaining().len() == 0,
            r is None ==> final(self).remaining() == old(self).remaining(),
            r matches Some(v) ==> old(self).remaining().len() > 0
                && v == old(self).remaining()[0]
                && final(self).remaining() == old(self).remaining().drop_first(),
    {
        let ghost s0 = self.stack@;
        match self.stack.pop() {
            None => {
                proof {
                    assert(s0 =~= Seq::<Box<Node<T>>>::empty());
                }
                None
            }
            Some(b) => {
                proof {
                    assert(s0.last() == b);
                    assert(self.stack@ == s0.drop_last());
                    assert(old(self).remaining()
                        == (seq![b.val] + Node::seq_of(b.right))
                            + rest_asc_own(s0.drop_last()));
                }
                let n = *b;
                let val = n.val;
                let right = n.right;
                Self::descend(&mut self.stack, right);
                proof {
                    assert(self.remaining() =~= old(self).remaining().drop_first());
                }
                Some(val)
            }
        }
    }
}

/// What remains of a consuming descending traversal: the stacked nodes have
/// had their right subtrees detached, so only their element and left
/// subtree count.
pub(crate) open spec fn rest_desc_own<T: Keyed>(s: Seq<Box<Node<T>>>) -> Seq<T>
    decreases s.len(),
{
    if s.len() == 0 {
        Seq::empty()
    } else {
        (seq![s.last().val] + Node::seq_of(s.last().left).reverse())
            + rest_desc_own(s.drop_last())
    }
}

/// In-order descending iterator that consumes the tree.
pub struct IntoDecreasing<T: Keyed> {
    stack: Vec<Box<Node<T>>>,
}

impl<T: Keyed> IntoDecreasing<T> {
    /// The elements not yet yielded: the reverse of the ascending order.
    pub closed spec fn remaining(self) -> Seq<T> {
        rest_desc_own(self.stack@)
    }

    pub closed spec fn wf(self) -> bool {
        forall|i: int| 0 <= i < self.stack@.len()
            ==> Node::wf_of((#[trigger] self.stack@[i]).left)
    }

    /// Walk down the right spine of `cur`, detaching and stacking every
    /// node passed.
    fn descend(stack: &mut Vec<Box<Node<T>>>, cur: Option<Box<Node<T>>>)
        requires
            Node::wf_of(cur),
            forall|i: int| 0 <= i < old(stack)@.len()
                ==> Node::wf_of((#[trigger] old(stack)@[i]).left),
        ensures
            rest_desc_own(final(stack)@) == Node::seq_of(cur).reverse()
                + rest_desc_own(old(stack)@),
            forall|i: int| 0 <= i < final(stack)@.len()
                ==> Node::wf_of((#[trigger] final(stack)@[i]).left),
    {
        let ghost target = Node::seq_of(cur).reverse() + rest_desc_own(old(stack)@);
        let mut cur = cur;
        while cur.is_some()
            invariant
                Node::wf_of(cur),
                forall|i: int| 0 <= i < stack@.len()
                    ==> Node::wf_of((#[trigger] stack@[i]).left),
                Node::seq_of(cur).reverse() + rest_desc_own(stack@) == target,
            decreases Node::seq_of(cur).len(),
        {
            let mut b = cur.take().unwrap();
            proof {
                assert(b.wf());
                assert(b.seq().len()
                    == Node::seq_of(b.left).len() + 1 + Node::seq_of(b.right).len());
                lemma_reverse_parts(Node::seq_of(b.left), b.val, Node::seq_of(b.right));
            }
            let ghost b0 = b;
            let r = b.right.take();
            let ghost s0 = stack@;
            stack.push(b);
            cur = r;
            proof {
                assert(stack@.drop_last() =~= s0);
                assert(stack@.last().val == b0.val);
                assert(stack@.last().left == b0.left);
                assert(Node::seq_of(cur) == Node::seq_of(b0.right));
                assert(Node::seq_of(cur).reverse() + rest_desc_own(stack@) =~= target);
            }
        }
        proof {
            assert(Node::seq_of(cur).reverse() =~= Seq::<T>::empty());
            assert(rest_desc_own(stack@) =~= target);
        }
    }

    pub(crate) fn new(root: Option<Box<Node<T>>>) -> (it: Self)
        requires
            Node::wf_of(root),
        ensures
            it.wf(),
            it.remaining() == Node::seq_of(root).reverse(),
    {
        let mut stack: Vec<Box<Node<T>>> = Vec::new();
        proof {
            assert(rest_desc_own(stack@) =~= Seq::<T>::empty());
        }
        Self::descend(&mut stack, root);
        proof {
            assert(rest_desc_own(stack@) =~= Node::seq_of(root).reverse());
        }
        IntoDecreasing { stack }
    }

    /// The next element in descending order, yielded by value.
    pub fn next(&mut self) -> (r: Option<T>)
        requires
            old(self).wf(),
        ensures
            final(self).wf(),
            r is None <==> old(self).remaining().len() == 0,
            r is None ==> final(self).remaining() == old(self).remaining(),
            r matches Some(v) ==> old(self).remaining().len() > 0
                && v == old(self).remaining()[0]
                && final(self).remaining() == old(self).remaining().drop_first(),
    {
        let ghost s0 = self.stack@;
        match self.stack.pop() {
            None => {
                proof {
                    assert(s0 =~= Seq::<Box<Node<T>>>::empty());
                }
                None
            }
            Some(b) => {
                proof {
                    assert(s0.last() == b);
                    assert(self.stack@ == s0.drop_last());
                    assert(old(self).remaining()
                        == (seq![b.val] + Node::seq_of(b.left).reverse())
                            + rest_desc_own(s0.drop_last()));
                }
                let n = *b;
                let val = n.val;
                let left = n.left;
                Self::descend(&mut self.stack, left);
                proof {
                    assert(self.remaining() =~= old(self).remaining().drop_first());
                }
                Some(val)
            }
        }
    }
}

/// What remains of a borrowing pre-order traversal whose stack is `s`: the
/// whole pre-order sequence of each stacked subtree, top of stack first.
pub(crate) open spec fn rest_pre<T: Keyed>(s: Seq<&Node<T>>) -> Seq<T>
    decreases s.len(),
{
    if s.len() == 0 {
        Seq::empty()
    } else {
        preorder(*s.last()) + rest_pre(s.drop_last())
    }
}

/// Pre-order iterator borrowing the tree: an unordered enumeration of the
/// elements, each root before its subtrees.
pub struct Iter<'a, T: Keyed> {
    stack: Vec<&'a Node<T>>,
}

impl<'a, T: Keyed> Iter<'a, T> {
    /// The elements not yet yielded, in the order they will come.
    pub closed spec fn remaining(self) -> Seq<T> {
        rest_pre(self.stack@)
    }

    pub closed spec fn wf(self) -> bool {
        forall|i: int| 0 <= i < self.stack@.len() ==> (#[trigger] self.stack@[i]).wf()
    }

    pub(crate) fn new(root: &'a Option<Box<Node<T>>>) -> (it: Self)
        requires
            Node::wf_of(*root),
        ensures
            it.wf(),
            it.remaining() == preorder_of(*root),
            it.remaining().to_multiset() == Node::seq_of(*root).to_multiset(),
    {
        let mut stack: Vec<&'a Node<T>> = Vec::new();
        proof {
            assert(rest_pre(stack@) =~= Seq::<T>::empty());
        }
        match root {
            Some(b) => {
                let n: &'a Node<T> = &**b;
                let ghost s0 = stack@;
                stack.push(n);
                proof {
                    assert(stack@.drop_last() =~= s0);
                    assert(stack@.last() == n);
                    assert(rest_pre(stack@) =~= preorder_of(*root));
                }
            }
            None => {}
        }
        proof {
            lemma_preorder_multiset(*root);
        }
        Iter { stack }
    }

    /// The next element of the pre-order sweep.
    pub fn next(&mut self) -> (r: Option<&'a T>)
        requires
            old(self).wf(),
        ensures
            final(self).wf(),
            r is None <==> old(self).remaining().len() == 0,
            r is None ==> final(self).remaining() == old(self).remaining(),
            r matches Some(v) ==> old(self).remaining().len() > 0
                && *v == old(self).remaining()[0]
                && final(self).remaining() == old(self).remaining().drop_first(),
    {
        let ghost s0 = self.stack@;
        match self.stack.pop() {
            None => {
                proof {
                    assert(s0 =~= Seq::<&Node<T>>::empty());
                }
                None
            }
            Some(n) => {
                proof {
                    assert(s0.last() == n);
                    assert(n.wf());
                    assert(self.stack@ == s0.drop_last());
                    assert(old(self).remaining()
                        == (seq![n.val] + preorder_of(n.left) + preorder_of(n.right))
                            + rest_pre(s0.drop_last()));
                }
                match &n.right {
                    Some(b) => {
                        let c: &'a Node<T> = &**b;
                        let ghost s1 = self.stack@;
                        self.stack.push(c);
                        proof {
                            assert(self.stack@.drop_last() =~= s1);
                            assert(self.stack@.last() == c);
                            assert(rest_pre(self.stack@) == preorder(*c) + rest_pre(s1));
                        }
                    }
                    None => {
                        proof {
                            assert(preorder_of(n.right) =~= Seq::<T>::empty());
                        }
                    }
                }
                proof {
                    assert(rest_pre(self.stack@)
                        =~= preorder_of(n.right) + rest_pre(s0.drop_last()));
                }
                match &n.left {
                    Some(b) => {
                        let c: &'a Node<T> = &**b;
                        let ghost s1 = self.stack@;
                        self.stack.push(c);
                        proof {
                            assert(self.stack@.drop_last() =~= s1);
                            assert(self.stack@.last() == c);
                            assert(rest_pre(self.stack@) == preorder(*c) + rest_pre(s1));
                        }
                    }
                    None => {
                        proof {
                            assert(preorder_of(n.left) =~= Seq::<T>::empty());
                        }
                    }
                }
                proof {
                    assert(rest_pre(self.stack@) =~= preorder_of(n.left)
                        + (preorder_of(n.right) + rest_pre(s0.drop_last())));
                    assert(self.remaining() =~= old(self).remaining().drop_first());
                }
                Some(&n.val)
            }
        }
    }
}

/// What remains of a consuming pre-order traversal whose stack is `s`.
pub(crate) open spec fn rest_pre_own<T: Keyed>(s: Seq<Box<Node<T>>>) -> Seq<T>
    decreases s.len(),
{
    if s.len() == 0 {
        Seq::empty()
    } else {
        preorder(*s.last()) + rest_pre_own(s.drop_last())
    }
}

/// Pre-order iterator that consumes the tree.
pub struct IntoIter<T: Keyed> {
    stack: Vec<Box<Node<T>>>,
}

impl<T: Keyed> IntoIter<T> {
    /// The elements not yet yielded, in the order they will come.
    pub closed spec fn remaining(self) -> Seq<T> {
        rest_pre_own(self.stack@)
    }

    pub closed spec fn wf(self) -> bool {
        forall|i: int| 0 <= i < self.stack@.len() ==> (#[trigger] self.stack@[i]).wf()
    }

    pub(crate) fn new(root: Option<Box<Node<T>>>) -> (it: Self)
        requires
            Node::wf_of(root),
        ensures
            it.wf(),
            it.remaining() == preorder_of(root),
            it.remaining().to_multiset() == Node::seq_of(root).to_multiset(),
    {
        let mut stack: Vec<Box<Node<T>>> = Vec::new();
        proof {
            assert(rest_pre_own(stack@) =~= Seq::<T>::empty());
        }
        match root {
            Some(b) => {
                let ghost b0 = b;
                let ghost s0 = stack@;
                stack.push(b);
                proof {
                    assert(stack@.drop_last() =~= s0);
                    assert(stack@.last() == b0);
                    assert(rest_pre_own(stack@) =~= preorder(*b0));
                }
            }
            None => {}
        }
        proof {
            lemma_preorder_multiset(root);
        }
        IntoIter { stack }
    }

    /// The next element of the pre-order sweep, yielded by value.
    pub fn next(&mut self) -> (r: Option<T>)
        requires
            old(self).wf(),
        ensures
            final(self).wf(),
            r is None <==> old(self).remaining().len() == 0,
            r is None ==> final(self).remaining() == old(self).remaining(),
            r matches Some(v) ==> old(self).remaining().len() > 0
                && v == old(self).remaining()[0]
                && final(self).remaining() == old(self).remaining().drop_first(),
    {
        let ghost s0 = self.stack@;
        match self.stack.pop() {
            None => {
                proof {
                    assert(s0 =~= Seq::<Box<Node<T>>>::empty());
                }
                None
            }
            Some(b) => {
                proof {
                    assert(s0.last() == b);
                    assert(b.wf());
                    assert(self.stack@ == s0.drop_last());
                    assert(old(self).remaining()
                        == (seq![b.val] + preorder_of(b.left) + preorder_of(b.right))
                            + rest_pre_own(s0.drop_last()));
                }
                let n = *b;
                let val = n.val;
                let ghost left0 = n.left;
                let ghost right0 = n.right;
                match n.right {
                    Some(c) => {
                        let ghost c0 = c;
                        let ghost s1 = self.stack@;
                        self.stack.push(c);
                        proof {
                            assert(self.stack@.drop_last() =~= s1);
                            assert(self.stack@.last() == c0);
                            assert(rest_pre_own(self.stack@)
                                == preorder(*c0) + rest_pre_own(s1));
                        }
                    }
                    None => {
                        proof {
                            assert(preorder_of(right0) =~= Seq::<T>::empty());
                        }
                    }
                }
                proof {
                    assert(rest_pre_own(self.stack@)
                        =~= preorder_of(right0) + rest_pre_own(s0.drop_last()));
                }
                match n.left {
                    Some(c) => {
                        let ghost c0 = c;
                        let ghost s1 = self.stack@;
                        self.stack.push(c);
                        proof {
                            assert(self.stack@.drop_last() =~= s1);
                            assert(self.stack@.last() == c0);
                            assert(rest_pre_own(self.stack@)
                                == preorder(*c0) + rest_pre_own(s1));
                        }
                    }
                    None => {
                        proof {
                            assert(preorder_of(left0) =~= Seq::<T>::empty());
                        }
                    }
                }
                proof {
                    assert(rest_pre_own(self.stack@) =~= preorder_of(left0)
                        + (preorder_of(right0) + rest_pre_own(s0.drop_last())));
                    assert(self.remaining() =~= old(self).remaining().drop_first());
                }
                Some(val)
            }
        }
    }
}

/// One row of the breadth-first walk, as optional subtree roots: a present
/// entry is a node, an absent one a gap kept to preserve the level's shape.
pub(crate) open spec fn row_of<T: Keyed>(r: Seq<Option<&Node<T>>>) -> Seq<Option<Node<T>>> {
    r.map_values(|e: Option<&Node<T>>| match e {
        None => None,
        Some(p) => Some(*p),
    })
}

/// The values shown by one row: each node's element, gaps kept.
pub(crate) open spec fn row_vals<T: Keyed>(r: Seq<Option<Node<T>>>) -> Seq<Option<T>> {
    r.map_values(|e: Option<Node<T>>| match e {
        None => None,
        Some(n) => Some(n.val),
    })
}

/// The two children contributed to the next row by one entry: a gap
/// contributes two gaps.
pub(crate) open spec fn entry_children<T: Keyed>(e: Option<Node<T>>) -> Seq<Option<Node<T>>> {
    match e {
        None => seq![None, None],
        Some(n) => seq![unboxed(n.left), unboxed(n.right)],
    }
}

pub(crate) open spec fn unboxed<T: Keyed>(o: Option<Box<Node<T>>>) -> Option<Node<T>> {
    match o {
        None => None,
        Some(b) => Some(*b),
    }
}

/// The next row of the breadth-first walk: every entry replaced by its two
/// children, in order.
pub(crate) open spec fn child_row<T: Keyed>(r: Seq<Option<Node<T>>>) -> Seq<Option<
    Node<T>>>
    decreases r.len(),
{
    if r.len() == 0 {
        Seq::empty()
    } else {
        entry_children(r.first()) + child_row(r.drop_first())
    }
}

/// Appending an entry to a row appends its children to the child row.
pub(crate) proof fn lemma_child_row_push<T: Keyed>(r: Seq<Option<Node<T>>>, e: Option<
    Node<T>>)
    ensures
        child_row(r.push(e)) == child_row(r) + entry_children(e),
    decreases r.len(),
{
    if r.len() == 0 {
        assert(r.push(e).first() == e);
        assert(r.push(e).drop_first() =~= Seq::<Option<Node<T>>>::empty());
        assert(child_row(Seq::<Option<Node<T>>>::empty()) =~= Seq::empty());
        assert(child_row(r.push(e))
            == entry_children(e) + child_row(r.push(e).drop_first()));
        assert(child_row(r.push(e)) =~= child_row(r) + entry_children(e));
    } else {
        assert(r.push(e).drop_first() =~= r.drop_first().push(e));
        assert(r.push(e).first() == r.first());
        lemma_child_row_push(r.drop_first(), e);
        assert(child_row(r.push(e))
            == entry_children(r.first()) + child_row(r.drop_first().push(e)));
        assert(child_row(r) == entry_children(r.first()) + child_row(r.drop_first()));
        assert(child_row(r.push(e)) =~= child_row(r) + entry_children(e));
    }
}

/// One level of the breadth-first walk, yielding each entry's element, or a
/// gap where a child was absent.
pub struct Level<'a, T: Keyed> {
    row: Vec<Option<&'a Node<T>>>,
    pos: usize,
}

impl<'a, T: Keyed> Level<'a, T> {
    /// The entries not yet yielded, values only.
    pub closed spec fn remaining(self) -> Seq<Option<T>> {
        let vals = row_vals(row_of(self.row@));
        if self.pos <= vals.len() {
            vals.skip(self.pos as int)
        } else {
            Seq::empty()
        }
    }

    /// The next entry of the level: an element, or a gap.
    pub fn next(&mut self) -> (r: Option<Option<&'a T>>)
        ensures
            r is None <==> old(self).remaining().len() == 0,
            r is None ==> final(self).remaining() == old(self).remaining(),
            r matches Some(e) ==> old(self).remaining().len() > 0
                && (match e {
                    None => old(self).remaining()[0] is None,
                    Some(v) => old(self).remaining()[0] == Some(*v),
                })
                && final(self).remaining() == old(self).remaining().drop_first(),
    {
        if self.pos < self.row.len() {
            let e = self.row[self.pos];
            self.pos = self.pos + 1;
            proof {
                assert(self.remaining() =~= old(self).remaining().drop_first());
            }
            match e {
                Some(n) => Some(Some(&n.val)),
                None => Some(None),
            }
        } else {
            None
        }
    }
}

/// Breadth-first walk of the tree, one level at a time, top down. Gaps are
/// kept: every level holds twice as many entries as the one before it, and
/// exactly as many levels come out as the tree is tall.
pub struct Levels<'a, T: Keyed> {
    h_left: usize,
    cur: Vec<Option<&'a Node<T>>>,
}

impl<'a, T: Keyed> Levels<'a, T> {
    /// How many levels are still to come.
    pub closed spec fn depth(self) -> int {
        self.h_left as int
    }

    /// The row the next level will show.
    pub(crate) closed spec fn row(self) -> Seq<Option<Node<T>>> {
        row_of(self.cur@)
    }

    /// The values the next level will show, gaps kept.
    pub closed spec fn current_vals(self) -> Seq<Option<T>> {
        row_vals(self.row())
    }

    /// The walk has moved one level down from `pre`: every entry of `pre`'s
    /// row was replaced by its two children, a gap by two gaps.
    pub closed spec fn advanced_from(self, pre: Self) -> bool {
        self.row() == child_row(pre.row())
    }

    pub(crate) fn new(root: Option<&'a Node<T>>, height: usize) -> (it: Self)
        ensures
            it.depth() == height,
            it.row() == seq![match root {
                None => None::<Node<T>>,
                Some(n) => Some(*n),
            }],
            it.current_vals() == seq![match root {
                None => None::<T>,
                Some(n) => Some(n.val),
            }],
    {
        let mut cur: Vec<Option<&'a Node<T>>> = Vec::new();
        cur.push(root);
        proof {
            assert(row_of(cur@) =~= seq![match root {
                None => None::<Node<T>>,
                Some(n) => Some(*n),
            }]);
            assert(row_vals(row_of(cur@)) =~= seq![match root {
                None => None::<T>,
                Some(n) => Some(n.val),
            }]);
        }
        Levels { h_left: height, cur }
    }

    /// The next level, or nothing once as many levels as the tree's height
    /// have been yielded. The level shows the current row's values; the walk
    /// advances to the row of their children.
    pub fn next(&mut self) -> (r: Option<Level<'a, T>>)
        ensures
            r is None <==> old(self).depth() == 0,
            r is None ==> *final(self) == *old(self),
            r matches Some(level) ==> old(self).depth() > 0
                && level.remaining() == old(self).current_vals()
                && final(self).depth() == old(self).depth() - 1
                && final(self).advanced_from(*old(self)),
    {
        if self.h_left == 0 {
            return None;
        }
        let ghost r0 = row_of(self.cur@);
        let mut next_row: Vec<Option<&'a Node<T>>> = Vec::new();
        let mut i: usize = 0;
        proof {
            assert(r0.take(0) =~= Seq::<Option<Node<T>>>::empty());
            assert(row_of(next_row@) =~= child_row(r0.take(0)));
        }
        while i < self.cur.len()
            invariant
                i <= self.cur.len(),
                row_of(self.cur@) == r0,
                row_of(next_row@) == child_row(r0.take(i as int)),
            decreases self.cur.len() - i,
        {
            let e = self.cur[i];
            let ghost n0 = next_row@;
            match e {
                Some(n) => {
                    next_row.push(match &n.left {
                        Some(b) => Some(&**b),
                        None => None,
                    });
                    next_row.push(match &n.right {
                        Some(b) => Some(&**b),
                        None => None,
                    });
                }
                None => {
                    next_row.push(None);
                    next_row.push(None);
                }
            }
            proof {
                assert(row_of(next_row@)
                    =~= row_of(n0) + entry_children(r0[i as int]));
                lemma_child_row_push(r0.take(i as int), r0[i as int]);
                assert(r0.take(i as int).push(r0[i as int]) =~= r0.take(i + 1));
                assert(row_of(next_row@) =~= child_row(r0.take(i + 1)));
            }
            i = i + 1;
        }
        proof {
            assert(r0.take(self.cur@.len() as int) =~= r0);
        }
        core::mem::swap(&mut self.cur, &mut next_row);
        self.h_left = self.h_left - 1;
        proof {
            assert(row_vals(row_of(next_row@)).skip(0)
                =~= row_vals(old(self).row()));
        }
        Some(Level { row: next_row, pos: 0 })
    }
}

/// Ascending view of the elements whose key exceeds a lower bound: a filter
/// over the ascending iterator. Because that stream is monotone, everything
/// skipped is a contiguous prefix.
pub struct GreaterThan<'a, T: Keyed> {
    inner: Increasing<'a, T>,
    lower: &'a T,
}

impl<'a, T: Keyed> GreaterThan<'a, T> {
    /// The elements not yet yielded, in ascending order.
    pub closed spec fn remaining(self) -> Seq<T> {
        self.inner.remaining().filter(gt_key(self.lower.key()))
    }

    pub closed spec fn wf(self) -> bool {
        self.inner.wf()
    }

    pub(crate) fn new(root: &'a Option<Box<Node<T>>>, lower: &'a T) -> (it: Self)
        requires
            Node::wf_of(*root),
        ensures
            it.wf(),
            it.remaining() == Node::seq_of(*root).filter(gt_key(lower.key())),
    {
        GreaterThan { inner: Increasing::new(root), lower }
    }

    /// The next element with key above the bound, in ascending order.
    pub fn next(&mut self) -> (r: Option<&'a T>)
        requires
            old(self).wf(),
        ensures
            final(self).wf(),
            r is None <==> old(self).remaining().len() == 0,
            r is None ==> final(self).remaining() == old(self).remaining(),
            r matches Some(v) ==> old(self).remaining().len() > 0
                && *v == old(self).remaining()[0]
                && final(self).remaining() == old(self).remaining().drop_first(),
    {
        let ghost p = gt_key::<T>(self.lower.key());
        loop
            invariant
                self.inner.wf(),
                self.lower == old(self).lower,
                self.inner.remaining().filter(p) == old(self).remaining(),
                p == gt_key::<T>(self.lower.key()),
            ensures
                self.inner.wf(),
                self.lower == old(self).lower,
                self.inner.remaining().filter(p) == old(self).remaining(),
                self.inner.remaining().len() == 0,
            decreases self.inner.remaining().len(),
        {
            let ghost rem0 = self.inner.remaining();
            match self.inner.next() {
                None => {
                    break;
                }
                Some(v) => {
                    proof {
                        assert(rem0 == seq![*v] + self.inner.remaining());
                        Seq::filter_distributes_over_add(
                            seq![*v], self.inner.remaining(), p);
                        lemma_filter_one(*v, p);
                    }
                    if matches!(self.lower.key_cmp(v), core::cmp::Ordering::Less) {
                        proof {
                            assert(rem0.filter(p)
                                == seq![*v] + self.inner.remaining().filter(p));
                        }
                        return Some(v);
                    }
                }
            }
        }
        proof {
            assert(self.inner.remaining().filter(p) =~= Seq::<T>::empty());
        }
        None
    }
}

/// Descending view of the elements whose key is below an upper bound: a
/// filter over the descending iterator.
pub struct LessThan<'a, T: Keyed> {
    inner: Decreasing<'a, T>,
    upper: &'a T,
}

impl<'a, T: Keyed> LessThan<'a, T> {
    /// The elements not yet yielded, in descending order.
    pub closed spec fn remaining(self) -> Seq<T> {
        self.inner.remaining().filter(lt_key(self.upper.key()))
    }

    pub closed spec fn wf(self) -> bool {
        self.inner.wf()
    }

    pub(crate) fn new(root: &'a Option<Box<Node<T>>>, upper: &'a T) -> (it: Self)
        requires
            Node::wf_of(*root),
        ensures
            it.wf(),
            it.remaining() == Node::seq_of(*root).reverse().filter(lt_key(upper.key())),
    {
        LessThan { inner: Decreasing::new(root), upper }
    }

    /// The next element with key below the bound, in descending order.
    pub fn next(&mut self) -> (r: Option<&'a T>)
        requires
            old(self).wf(),
        ensures
            final(self).wf(),
            r is None <==> old(self).remaining().len() == 0,
            r is None ==> final(self).remaining() == old(self).remaining(),
            r matches Some(v) ==> old(self).remaining().len() > 0
                && *v == old(self).remaining()[0]
                && final(self).remaining() == old(self).remaining().drop_first(),
    {
        let ghost p = lt_key::<T>(self.upper.key());
        loop
            invariant
                self.inner.wf(),
                self.upper == old(self).upper,
                self.inner.remaining().filter(p) == old(self).remaining(),
                p == lt_key::<T>(self.upper.key()),
            ensures
                self.inner.wf(),
                self.upper == old(self).upper,
                self.inner.remaining().filter(p) == old(self).remaining(),
                self.inner.remaining().len() == 0,
            decreases self.inner.remaining().len(),
        {
            let ghost rem0 = self.inner.remaining();
            match self.inner.next() {
                None => {
                    break;
                }
                Some(v) => {
                    proof {
                        assert(rem0 == seq![*v] + self.inner.remaining());
                        Seq::filter_distributes_over_add(
                            seq![*v], self.inner.remaining(), p);
                        lemma_filter_one(*v, p);
                    }
                    if matches!(self.upper.key_cmp(v), core::cmp::Ordering::Greater) {
                        proof {
                            assert(rem0.filter(p)
                                == seq![*v] + self.inner.remaining().filter(p));
                        }
                        return Some(v);
                    }
                }
            }
        }
        proof {
            assert(self.inner.remaining().filter(p) =~= Seq::<T>::empty());
        }
        None
    }
}

} // verus!
