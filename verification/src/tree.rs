//! The tree type, its mathematical model, and its executable operations.

use vstd::prelude::*;

verus! {

use core::cmp::Ordering;
use std::collections::VecDeque;
use vstd::multiset::Multiset;
use vstd::std_specs::cmp::PartialOrdSpec;

/// The values that a sequence of references points at, in the same order.
pub open spec fn refs_to_vals<T>(s: Seq<&T>) -> Seq<T> {
    s.map_values(|x: &T| *x)
}

/// A binary search tree: either a `Node` holding one value and exclusively
/// owning two subtrees, or the `Empty` sentinel.
///
/// For every `Node`, every value in its left subtree compares `Less` than the
/// node's value and every value in its right subtree compares `Greater`,
/// under the element type's partial ordering (see `well_formed`). A value
/// whose comparison against a resident value yields neither `Less` nor
/// `Greater` (equal or incomparable) is silently dropped by `insert`, so a
/// tree built by insertions never stores two values that compare equal.
pub enum BinarySearchTree<T> where T: core::fmt::Debug + PartialOrd {
    Node {
        value: T,
        left: Box<BinarySearchTree<T>>,
        right: Box<BinarySearchTree<T>>,
    },
    Empty,
}

impl<T> Default for BinarySearchTree<T> where T: core::fmt::Debug + PartialOrd {
    /// Returns the empty tree.
    fn default() -> (r: Self)
        ensures
            r == BinarySearchTree::<T>::Empty,
    {
        Self::new()
    }
}

impl<T> BinarySearchTree<T> where T: core::fmt::Debug + PartialOrd {
    /// The number of `Node`s in the tree.
    pub open spec fn spec_count(self) -> nat
        decreases self,
    {
        match self {
            BinarySearchTree::Node { value, left, right } => {
                1 + left.spec_count() + right.spec_count()
            },
            BinarySearchTree::Empty => 0,
        }
    }

    /// The multiset of values stored in the tree.
    pub open spec fn spec_multiset(self) -> Multiset<T>
        decreases self,
    {
        match self {
            BinarySearchTree::Node { value, left, right } => {
                left.spec_multiset().add(right.spec_multiset()).insert(value)
            },
            BinarySearchTree::Empty => Multiset::empty(),
        }
    }

    /// True when `x` is stored somewhere in the tree.
    pub open spec fn contains_value(self, x: T) -> bool {
        self.spec_multiset().contains(x)
    }

    /// The tree that `insert` produces: a comparison yielding `Less` descends
    /// left, `Greater` descends right, and anything else (equal or
    /// incomparable) leaves the tree unchanged; an `Empty` leaf becomes a
    /// `Node` with two `Empty` children.
    pub open spec fn spec_insert(self, new_value: T) -> Self
        decreases self,
    {
        match self {
            BinarySearchTree::Node { value, left, right } => {
                match new_value.partial_cmp_spec(&value) {
                    Some(Ordering::Less) => BinarySearchTree::Node {
                        value,
                        left: Box::new(left.spec_insert(new_value)),
                        right,
                    },
                    Some(Ordering::Greater) => BinarySearchTree::Node {
                        value,
                        left,
                        right: Box::new(right.spec_insert(new_value)),
                    },
                    _ => self,
                }
            },
            BinarySearchTree::Empty => BinarySearchTree::Node {
                value: new_value,
                left: Box::new(BinarySearchTree::Empty),
                right: Box::new(BinarySearchTree::Empty),
            },
        }
    }

    /// The pre-order listing: a node's value, then its left subtree's
    /// listing, then its right subtree's.
    pub open spec fn pre_order_seq(self) -> Seq<T>
        decreases self,
    {
        match self {
            BinarySearchTree::Node { value, left, right } => {
                seq![value] + left.pre_order_seq() + right.pre_order_seq()
            },
            BinarySearchTree::Empty => Seq::empty(),
        }
    }

    /// The in-order listing: a node's left subtree's listing, then its
    /// value, then its right subtree's listing.
    pub open spec fn in_order_seq(self) -> Seq<T>
        decreases self,
    {
        match self {
            BinarySearchTree::Node { value, left, right } => {
                left.in_order_seq() + seq![value] + right.in_order_seq()
            },
            BinarySearchTree::Empty => Seq::empty(),
        }
    }

    /// The post-order listing: a node's left subtree's listing, then its
    /// right subtree's, then its value.
    pub open spec fn post_order_seq(self) -> Seq<T>
        decreases self,
    {
        match self {
            BinarySearchTree::Node { value, left, right } => {
                left.post_order_seq() + right.post_order_seq() + seq![value]
            },
            BinarySearchTree::Empty => Seq::empty(),
        }
    }

    /// The total number of `Node`s across a queue of trees.
    pub open spec fn spec_count_forest(q: Seq<BinarySearchTree<T>>) -> nat
        decreases q.len(),
    {
        if q.len() == 0 {
            0
        } else {
            q[0].spec_count() + Self::spec_count_forest(q.drop_first())
        }
    }

    /// Counting the `Node`s of a queue of trees splits over concatenation.
    pub proof fn lemma_count_forest_add(a: Seq<BinarySearchTree<T>>, b: Seq<BinarySearchTree<T>>)
        ensures
            Self::spec_count_forest(a + b) == Self::spec_count_forest(a)
                + Self::spec_count_forest(b),
        decreases a.len(),
    {
        if a.len() == 0 {
            assert(a + b =~= b);
        } else {
            assert((a + b).drop_first() =~= a.drop_first() + b);
            Self::lemma_count_forest_add(a.drop_first(), b);
        }
    }

    /// The node count of a two-tree queue is the sum of the two counts.
    pub proof fn lemma_count_forest_pair(l: BinarySearchTree<T>, r: BinarySearchTree<T>)
        ensures
            Self::spec_count_forest(seq![l, r]) == l.spec_count() + r.spec_count(),
    {
        assert(seq![l, r].drop_first() =~= seq![r]);
        assert(seq![r].drop_first() =~= Seq::<BinarySearchTree<T>>::empty());
        assert(Self::spec_count_forest(Seq::<BinarySearchTree<T>>::empty()) == 0);
        assert(Self::spec_count_forest(seq![r]) == r.spec_count());
        assert(Self::spec_count_forest(seq![l, r]) == l.spec_count() + Self::spec_count_forest(
            seq![r],
        ));
    }

    /// The node count of a one-tree queue is that tree's count.
    pub proof fn lemma_count_forest_single(t: BinarySearchTree<T>)
        ensures
            Self::spec_count_forest(seq![t]) == t.spec_count(),
    {
        assert(seq![t].drop_first() =~= Seq::<BinarySearchTree<T>>::empty());
        assert(Self::spec_count_forest(Seq::<BinarySearchTree<T>>::empty()) == 0);
    }

    /// The level-order listing of a FIFO queue of trees: the front tree's
    /// value comes first and its two subtrees join the back of the queue;
    /// an `Empty` front contributes nothing.
    pub open spec fn level_order_forest(q: Seq<BinarySearchTree<T>>) -> Seq<T>
        decreases Self::spec_count_forest(q), q.len(),
        via Self::level_order_forest_decreases
    {
        if q.len() == 0 {
            Seq::empty()
        } else {
            match q[0] {
                BinarySearchTree::Node { value, left, right } => {
                    seq![value] + Self::level_order_forest(q.drop_first() + seq![*left, *right])
                },
                BinarySearchTree::Empty => Self::level_order_forest(q.drop_first()),
            }
        }
    }

    #[via_fn]
    proof fn level_order_forest_decreases(q: Seq<BinarySearchTree<T>>) {
        if q.len() != 0 {
            if let BinarySearchTree::Node { value, left, right } = q[0] {
                Self::lemma_count_forest_add(q.drop_first(), seq![*left, *right]);
                Self::lemma_count_forest_pair(*left, *right);
            }
        }
    }

    /// The breadth-first listing of the tree: level by level from the root,
    /// left to right within each level.
    pub open spec fn level_order_seq(self) -> Seq<T> {
        Self::level_order_forest(seq![self])
    }

    /// The trees that a queue of references points at, in the same order.
    pub open spec fn forest_of_refs(q: Seq<&BinarySearchTree<T>>) -> Seq<BinarySearchTree<T>> {
        q.map_values(|t: &BinarySearchTree<T>| *t)
    }

    /// An `Empty` tree anywhere in the queue contributes nothing to the
    /// level-order listing.
    pub proof fn lemma_level_order_skip_empty(a: Seq<BinarySearchTree<T>>, b: Seq<
        BinarySearchTree<T>,
    >)
        ensures
            Self::level_order_forest(a + seq![BinarySearchTree::Empty] + b)
                == Self::level_order_forest(a + b),
        decreases Self::spec_count_forest(a + seq![BinarySearchTree::Empty] + b), (a + seq![
            BinarySearchTree::Empty,
        ] + b).len(),
    {
        let e = BinarySearchTree::<T>::Empty;
        let q = a + seq![e] + b;
        if a.len() == 0 {
            assert(q[0] == e);
            assert(q.drop_first() =~= b);
            assert(a + b =~= b);
        } else {
            assert(q[0] == a[0]);
            assert((a + b)[0] == a[0]);
            match a[0] {
                BinarySearchTree::Node { value, left, right } => {
                    let a2 = a.drop_first();
                    let b2 = b + seq![*left, *right];
                    assert(q.drop_first() + seq![*left, *right] =~= a2 + seq![e] + b2);
                    assert((a + b).drop_first() + seq![*left, *right] =~= a2 + b2);
                    Self::lemma_count_forest_add(q.drop_first(), seq![*left, *right]);
                    Self::lemma_count_forest_pair(*left, *right);
                    Self::lemma_level_order_skip_empty(a2, b2);
                },
                BinarySearchTree::Empty => {
                    let a2 = a.drop_first();
                    assert(q.drop_first() =~= a2 + seq![e] + b);
                    assert((a + b).drop_first() =~= a2 + b);
                    Self::lemma_level_order_skip_empty(a2, b);
                },
            }
        }
    }

    /// The queue contents after the two subtrees of a visited node join the
    /// back of the queue, `Empty` subtrees left out.
    pub open spec fn enqueue_children(
        rest: Seq<BinarySearchTree<T>>,
        l: BinarySearchTree<T>,
        r: BinarySearchTree<T>,
    ) -> Seq<BinarySearchTree<T>> {
        let with_l = if l is Empty {
            rest
        } else {
            rest.push(l)
        };
        if r is Empty {
            with_l
        } else {
            with_l.push(r)
        }
    }

    /// Enqueueing only the non-`Empty` subtrees leaves the level-order
    /// listing, and the total node count, of the queue as if both had been
    /// enqueued.
    pub proof fn lemma_level_order_enqueue(
        rest: Seq<BinarySearchTree<T>>,
        l: BinarySearchTree<T>,
        r: BinarySearchTree<T>,
    )
        ensures
            Self::level_order_forest(Self::enqueue_children(rest, l, r))
                == Self::level_order_forest(rest + seq![l, r]),
            Self::spec_count_forest(Self::enqueue_children(rest, l, r))
                == Self::spec_count_forest(rest) + l.spec_count() + r.spec_count(),
    {
        let e = BinarySearchTree::<T>::Empty;
        Self::lemma_count_forest_add(rest, seq![l, r]);
        Self::lemma_count_forest_pair(l, r);
        if l is Empty && r is Empty {
            assert(rest + seq![e] + seq![e] =~= rest + seq![l, r]);
            Self::lemma_level_order_skip_empty(rest, seq![e]);
            assert(rest + seq![e] + Seq::<BinarySearchTree<T>>::empty() =~= rest + seq![e]);
            assert(rest + Seq::<BinarySearchTree<T>>::empty() =~= rest);
            Self::lemma_level_order_skip_empty(rest, Seq::empty());
            assert(l.spec_count() == 0);
            assert(r.spec_count() == 0);
            assert(Self::enqueue_children(rest, l, r) == rest);
        } else if l is Empty {
            assert(rest + seq![e] + seq![r] =~= rest + seq![l, r]);
            Self::lemma_level_order_skip_empty(rest, seq![r]);
            assert(Self::enqueue_children(rest, l, r) =~= rest + seq![r]);
            Self::lemma_count_forest_add(rest, seq![r]);
            Self::lemma_count_forest_single(r);
            assert(l.spec_count() == 0);
        } else if r is Empty {
            assert((rest + seq![l]) + seq![e] + Seq::<BinarySearchTree<T>>::empty() =~= rest
                + seq![l, r]);
            assert((rest + seq![l]) + Seq::<BinarySearchTree<T>>::empty() =~= rest + seq![l]);
            Self::lemma_level_order_skip_empty(rest + seq![l], Seq::empty());
            assert(Self::enqueue_children(rest, l, r) =~= rest + seq![l]);
            Self::lemma_count_forest_add(rest, seq![l]);
            Self::lemma_count_forest_single(l);
            assert(r.spec_count() == 0);
        } else {
            assert(Self::enqueue_children(rest, l, r) =~= rest + seq![l, r]);
        }
    }

    /// The BST ordering invariant: at every `Node`, each value of the left
    /// subtree compares `Less` than the node's value and each value of the
    /// right subtree compares `Greater`.
    pub open spec fn well_formed(self) -> bool
        decreases self,
    {
        match self {
            BinarySearchTree::Node { value, left, right } => {
                &&& (forall|x: T|
                    left.contains_value(x) ==> #[trigger] x.partial_cmp_spec(&value)
                        == Some(Ordering::Less))
                &&& (forall|x: T|
                    right.contains_value(x) ==> #[trigger] x.partial_cmp_spec(&value)
                        == Some(Ordering::Greater))
                &&& left.well_formed()
                &&& right.well_formed()
            },
            BinarySearchTree::Empty => true,
        }
    }

    /// Returns the empty tree.
    pub fn new() -> (r: Self)
        ensures
            r == BinarySearchTree::<T>::Empty,
    {
        BinarySearchTree::Empty
    }

    /// True exactly when no `Node` exists anywhere in the tree.
    pub fn is_empty(&self) -> (r: bool)
        ensures
            r <==> (*self is Empty),
            r <==> self.spec_count() == 0,
    {
        match self {
            BinarySearchTree::Node { .. } => false,
            BinarySearchTree::Empty => true,
        }
    }

    /// Inserts `new_value` in place: a comparison yielding `Less` descends
    /// left, `Greater` descends right, and anything else (equal or
    /// incomparable, such as an incomparable pair under a partial order) is
    /// silently discarded.
    ///
    /// Whenever the element type's `partial_cmp` agrees with its
    /// specification (as every vstd-specified primitive does), the result is
    /// exactly `spec_insert`. Whatever `partial_cmp` does, the tree only
    /// ever grows: it either stays exactly as it was or gains exactly the
    /// one inserted value.
    pub fn insert(&mut self, new_value: T)
        ensures
            T::obeys_partial_cmp_spec() ==> *final(self) == old(self).spec_insert(new_value),
            T::obeys_partial_cmp_spec() && old(self).well_formed() ==> final(self).well_formed(),
            final(self).spec_multiset() == old(self).spec_multiset() || final(self).spec_multiset()
                == old(self).spec_multiset().insert(new_value),
    {
        let mut tree = BinarySearchTree::Empty;
        core::mem::swap(self, &mut tree);
        *self = Self::insert_tree(tree, new_value);
        proof {
            if T::obeys_partial_cmp_spec() && old(self).well_formed() {
                crate::laws::lemma_insert_preserves_well_formed(*old(self), new_value);
            }
        }
    }

    fn insert_tree(tree: Self, new_value: T) -> (r: Self)
        ensures
            T::obeys_partial_cmp_spec() ==> r == tree.spec_insert(new_value),
            r.spec_multiset() == tree.spec_multiset() || r.spec_multiset()
                == tree.spec_multiset().insert(new_value),
        decreases tree,
    {
        let ghost t0 = tree;
        match tree {
            BinarySearchTree::Node { value, left, right } => {
                match new_value.partial_cmp(&value) {
                    Some(Ordering::Less) => {
                        let ghost l0 = *left;
                        let left = Box::new(Self::insert_tree(*left, new_value));
                        let r = BinarySearchTree::Node { value, left, right };
                        proof {
                            broadcast use vstd::multiset::group_multiset_axioms;

                            if left.spec_multiset() == l0.spec_multiset() {
                                assert(r.spec_multiset() =~= t0.spec_multiset());
                            } else {
                                assert(r.spec_multiset() =~= t0.spec_multiset().insert(new_value));
                            }
                        }
                        r
                    },
                    Some(Ordering::Greater) => {
                        let ghost r0 = *right;
                        let right = Box::new(Self::insert_tree(*right, new_value));
                        let r = BinarySearchTree::Node { value, left, right };
                        proof {
                            broadcast use vstd::multiset::group_multiset_axioms;

                            if right.spec_multiset() == r0.spec_multiset() {
                                assert(r.spec_multiset() =~= t0.spec_multiset());
                            } else {
                                assert(r.spec_multiset() =~= t0.spec_multiset().insert(new_value));
                            }
                        }
                        r
                    },
                    _ => BinarySearchTree::Node { value, left, right },
                }
            },
            BinarySearchTree::Empty => {
                let r = BinarySearchTree::Node {
                    value: new_value,
                    left: Box::new(BinarySearchTree::Empty),
                    right: Box::new(BinarySearchTree::Empty),
                };
                proof {
                    broadcast use vstd::multiset::group_multiset_axioms;

                    assert(r.spec_multiset() =~= t0.spec_multiset().insert(new_value));
                }
                r
            },
        }
    }

    /// Counts the `Node`s of the whole tree by a full recursive traversal.
    pub fn len(&self) -> (r: usize)
        requires
            self.spec_count() <= usize::MAX,
        ensures
            r == self.spec_count(),
    {
        match self {
            BinarySearchTree::Node { .. } => {
                let mut len: usize = 0;
                self.recursive_len(&mut len, self);
                len
            },
            BinarySearchTree::Empty => 0,
        }
    }

    fn recursive_len(&self, len: &mut usize, root: &BinarySearchTree<T>)
        requires
            *old(len) + root.spec_count() <= usize::MAX,
        ensures
            *final(len) == *old(len) + root.spec_count(),
        decreases root,
    {
        if let BinarySearchTree::Node { left, right, .. } = root {
            *len += 1;
            self.recursive_len(len, left);
            self.recursive_len(len, right);
        }
    }

    /// Visits the tree root first, then each left subtree before its right
    /// one. Returns `None` exactly on the empty tree.
    pub fn pre_order_traversal(&self) -> (r: Option<Vec<&T>>)
        ensures
            r is Some <==> !(*self is Empty),
            match r {
                Some(v) => refs_to_vals(v@) == self.pre_order_seq(),
                None => true,
            },
    {
        match self {
            BinarySearchTree::Node { .. } => {
                let mut v = Vec::new();
                self.recursive_pre_order_traversal(&mut v, self);
                proof {
                    assert(refs_to_vals(Seq::<&T>::empty()) =~= Seq::<T>::empty());
                    assert(Seq::<T>::empty() + self.pre_order_seq() =~= self.pre_order_seq());
                }
                Some(v)
            },
            BinarySearchTree::Empty => None,
        }
    }

    fn recursive_pre_order_traversal<'a>(&self, v: &mut Vec<&'a T>, root: &'a BinarySearchTree<T>)
        ensures
            refs_to_vals(final(v)@) == refs_to_vals(old(v)@) + root.pre_order_seq(),
        decreases root,
    {
        if let BinarySearchTree::Node { value, left, right } = root {
            v.push(value);
            proof {
                assert(refs_to_vals(v@) =~= refs_to_vals(old(v)@) + seq![*value]);
            }
            self.recursive_pre_order_traversal(v, left);
            self.recursive_pre_order_traversal(v, right);
            proof {
                assert(refs_to_vals(v@) =~= refs_to_vals(old(v)@) + root.pre_order_seq());
            }
        } else {
            proof {
                assert(refs_to_vals(v@) =~= refs_to_vals(old(v)@) + root.pre_order_seq());
            }
        }
    }

    /// Visits each left subtree, then the node, then the right subtree, so
    /// the values come out in ascending order of the element type's
    /// ordering. Returns `None` exactly on the empty tree.
    pub fn in_order_traversal(&self) -> (r: Option<Vec<&T>>)
        ensures
            r is Some <==> !(*self is Empty),
            match r {
                Some(v) => refs_to_vals(v@) == self.in_order_seq(),
                None => true,
            },
    {
        match self {
            BinarySearchTree::Node { .. } => {
                let mut v = Vec::new();
                self.recursive_in_order_traversal(&mut v, self);
                proof {
                    assert(refs_to_vals(Seq::<&T>::empty()) =~= Seq::<T>::empty());
                    assert(Seq::<T>::empty() + self.in_order_seq() =~= self.in_order_seq());
                }
                Some(v)
            },
            BinarySearchTree::Empty => None,
        }
    }

    fn recursive_in_order_traversal<'a>(&self, v: &mut Vec<&'a T>, root: &'a BinarySearchTree<T>)
        ensures
            refs_to_vals(final(v)@) == refs_to_vals(old(v)@) + root.in_order_seq(),
        decreases root,
    {
        if let BinarySearchTree::Node { value, left, right } = root {
            self.recursive_in_order_traversal(v, left);
            v.push(value);
            proof {
                assert(refs_to_vals(v@) =~= refs_to_vals(old(v)@) + left.in_order_seq()
                    + seq![*value]);
            }
            self.recursive_in_order_traversal(v, right);
            proof {
                assert(refs_to_vals(v@) =~= refs_to_vals(old(v)@) + root.in_order_seq());
            }
        } else {
            proof {
                assert(refs_to_vals(v@) =~= refs_to_vals(old(v)@) + root.in_order_seq());
            }
        }
    }

    /// Visits each left subtree, then the right subtree, then the node, so
    /// the tree root comes out last. Returns `None` exactly on the empty
    /// tree.
    pub fn post_order_traversal(&self) -> (r: Option<Vec<&T>>)
        ensures
            r is Some <==> !(*self is Empty),
            match r {
                Some(v) => refs_to_vals(v@) == self.post_order_seq(),
                None => true,
            },
    {
        match self {
            BinarySearchTree::Node { .. } => {
                let mut v = Vec::new();
                self.recursive_post_order_traversal(&mut v, self);
                proof {
                    assert(refs_to_vals(Seq::<&T>::empty()) =~= Seq::<T>::empty());
                    assert(Seq::<T>::empty() + self.post_order_seq() =~= self.post_order_seq());
                }
                Some(v)
            },
            BinarySearchTree::Empty => None,
        }
    }

    fn recursive_post_order_traversal<'a>(&self, v: &mut Vec<&'a T>, root: &'a BinarySearchTree<T>)
        ensures
            refs_to_vals(final(v)@) == refs_to_vals(old(v)@) + root.post_order_seq(),
        decreases root,
    {
        if let BinarySearchTree::Node { value, left, right } = root {
            self.recursive_post_order_traversal(v, left);
            self.recursive_post_order_traversal(v, right);
            let ghost before_push = v@;
            v.push(value);
            proof {
                assert(refs_to_vals(v@) =~= refs_to_vals(before_push) + seq![*value]);
                assert(refs_to_vals(v@) =~= refs_to_vals(old(v)@) + root.post_order_seq());
            }
        } else {
            proof {
                assert(refs_to_vals(v@) =~= refs_to_vals(old(v)@) + root.post_order_seq());
            }
        }
    }

    /// Visits the values level by level from the root, left to right within
    /// a level, driving a FIFO queue seeded with the root; only non-`Empty`
    /// subtrees are ever enqueued. Returns `None` exactly on the empty
    /// tree.
    pub fn breadth_first_traversal(&self) -> (r: Option<Vec<&T>>)
        ensures
            r is Some <==> !(*self is Empty),
            match r {
                Some(v) => refs_to_vals(v@) == self.level_order_seq(),
                None => true,
            },
    {
        match self {
            BinarySearchTree::Node { .. } => {
                let mut v: Vec<&T> = Vec::new();
                let mut queue: VecDeque<&BinarySearchTree<T>> = VecDeque::new();
                queue.push_back(self);
                proof {
                    assert(Self::forest_of_refs(queue@) =~= seq![*self]);
                    assert(refs_to_vals(v@) =~= Seq::<T>::empty());
                    assert(Seq::<T>::empty() + self.level_order_seq() =~= self.level_order_seq());
                }
                while queue.len() != 0
                    invariant
                        refs_to_vals(v@) + Self::level_order_forest(Self::forest_of_refs(queue@))
                            == self.level_order_seq(),
                    decreases Self::spec_count_forest(Self::forest_of_refs(queue@)), queue@.len(),
                {
                    let ghost prev_q = Self::forest_of_refs(queue@);
                    let ghost prev_v = v@;
                    let front = queue.pop_front().unwrap();
                    proof {
                        assert(Self::forest_of_refs(queue@) =~= prev_q.drop_first());
                        assert(prev_q[0] == *front);
                    }
                    if let BinarySearchTree::Node { value, left, right } = front {
                        let ghost rest = Self::forest_of_refs(queue@);
                        let ghost lt = **left;
                        let ghost rt = **right;
                        v.push(value);
                        if let BinarySearchTree::Node { .. } = **left {
                            queue.push_back(left);
                        }
                        if let BinarySearchTree::Node { .. } = **right {
                            queue.push_back(right);
                        }
                        proof {
                            assert(*front == (BinarySearchTree::Node {
                                value: *value,
                                left: *left,
                                right: *right,
                            }));
                            assert(Self::level_order_forest(prev_q) == seq![*value]
                                + Self::level_order_forest(rest + seq![lt, rt]));
                            assert(Self::forest_of_refs(queue@) =~= Self::enqueue_children(
                                rest,
                                lt,
                                rt,
                            ));
                            Self::lemma_level_order_enqueue(rest, lt, rt);
                            assert(refs_to_vals(v@) =~= refs_to_vals(prev_v) + seq![*value]);
                            assert(refs_to_vals(v@) + Self::level_order_forest(
                                Self::forest_of_refs(queue@),
                            ) =~= refs_to_vals(prev_v) + Self::level_order_forest(prev_q));
                            Self::lemma_count_forest_add(rest, seq![lt, rt]);
                            Self::lemma_count_forest_pair(lt, rt);
                        }
                    } else {
                        proof {
                            assert(Self::level_order_forest(prev_q) == Self::level_order_forest(
                                prev_q.drop_first(),
                            ));
                        }
                    }
                }
                proof {
                    assert(Self::forest_of_refs(queue@) =~= Seq::<BinarySearchTree<T>>::empty());
                    assert(Self::level_order_forest(Seq::<BinarySearchTree<T>>::empty())
                        =~= Seq::<T>::empty());
                    assert(refs_to_vals(v@) + Seq::<T>::empty() =~= refs_to_vals(v@));
                }
                Some(v)
            },
            BinarySearchTree::Empty => None,
        }
    }
}

} // verus!
