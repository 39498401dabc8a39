//! General laws of the tree, each stated for every tree and every element
//! type and proved once and for all.

use vstd::prelude::*;

verus! {

use core::cmp::Ordering;
use crate::tree::BinarySearchTree;
use vstd::multiset::Multiset;
use vstd::multiset::group_multiset_axioms;
use vstd::multiset::group_multiset_properties;
use vstd::seq_lib::group_to_multiset_ensures;
use vstd::seq_lib::lemma_multiset_commutative;
use vstd::std_specs::cmp::PartialOrdSpec;

proof fn lemma_empty_seq_multiset<T>()
    ensures
        Seq::<T>::empty().to_multiset() == Multiset::<T>::empty(),
{
    broadcast use group_to_multiset_ensures, group_multiset_axioms;

    assert(Seq::<T>::empty().to_multiset() =~= Multiset::<T>::empty()) by {
        assert forall|x: T| Seq::<T>::empty().to_multiset().count(x) == 0 by {
            assert(!Seq::<T>::empty().contains(x));
        }
    }
}

proof fn lemma_singleton_seq_multiset<T>(v: T)
    ensures
        seq![v].to_multiset() == Multiset::<T>::empty().insert(v),
{
    broadcast use group_to_multiset_ensures;

    lemma_empty_seq_multiset::<T>();
    assert(seq![v] =~= Seq::<T>::empty().push(v));
    assert(Seq::<T>::empty().push(v).to_multiset() =~= Seq::<T>::empty().to_multiset().insert(v));
}

/// The pre-order listing holds exactly the tree's values.
pub proof fn lemma_pre_order_multiset<T: core::fmt::Debug + PartialOrd>(t: BinarySearchTree<T>)
    ensures
        t.pre_order_seq().to_multiset() == t.spec_multiset(),
    decreases t,
{
    broadcast use group_multiset_axioms, group_multiset_properties;

    match t {
        BinarySearchTree::Node { value, left, right } => {
            lemma_pre_order_multiset(*left);
            lemma_pre_order_multiset(*right);
            lemma_singleton_seq_multiset(value);
            lemma_multiset_commutative(seq![value], left.pre_order_seq());
            lemma_multiset_commutative(seq![value] + left.pre_order_seq(), right.pre_order_seq());
            assert(t.pre_order_seq().to_multiset() =~= t.spec_multiset());
        },
        BinarySearchTree::Empty => {
            lemma_empty_seq_multiset::<T>();
        },
    }
}

/// The in-order listing holds exactly the tree's values.
pub proof fn lemma_in_order_multiset<T: core::fmt::Debug + PartialOrd>(t: BinarySearchTree<T>)
    ensures
        t.in_order_seq().to_multiset() == t.spec_multiset(),
    decreases t,
{
    broadcast use group_multiset_axioms, group_multiset_properties;

    match t {
        BinarySearchTree::Node { value, left, right } => {
            lemma_in_order_multiset(*left);
            lemma_in_order_multiset(*right);
            lemma_singleton_seq_multiset(value);
            lemma_multiset_commutative(left.in_order_seq(), seq![value]);
            lemma_multiset_commutative(left.in_order_seq() + seq![value], right.in_order_seq());
            assert(t.in_order_seq().to_multiset() =~= t.spec_multiset());
        },
        BinarySearchTree::Empty => {
            lemma_empty_seq_multiset::<T>();
        },
    }
}

/// The post-order listing holds exactly the tree's values.
pub proof fn lemma_post_order_multiset<T: core::fmt::Debug + PartialOrd>(t: BinarySearchTree<T>)
    ensures
        t.post_order_seq().to_multiset() == t.spec_multiset(),
    decreases t,
{
    broadcast use group_multiset_axioms, group_multiset_properties;

    match t {
        BinarySearchTree::Node { value, left, right } => {
            lemma_post_order_multiset(*left);
            lemma_post_order_multiset(*right);
            lemma_singleton_seq_multiset(value);
            lemma_multiset_commutative(left.post_order_seq(), right.post_order_seq());
            lemma_multiset_commutative(
                left.post_order_seq() + right.post_order_seq(),
                seq![value],
            );
            assert(t.post_order_seq().to_multiset() =~= t.spec_multiset());
        },
        BinarySearchTree::Empty => {
            lemma_empty_seq_multiset::<T>();
        },
    }
}

/// A tree stores as many values as it has `Node`s.
pub proof fn lemma_multiset_len_is_count<T: core::fmt::Debug + PartialOrd>(t: BinarySearchTree<T>)
    ensures
        t.spec_multiset().len() == t.spec_count(),
    decreases t,
{
    broadcast use group_multiset_axioms, group_multiset_properties;

    match t {
        BinarySearchTree::Node { value, left, right } => {
            lemma_multiset_len_is_count(*left);
            lemma_multiset_len_is_count(*right);
        },
        BinarySearchTree::Empty => {},
    }
}

/// The multiset of values stored across a queue of trees.
pub open spec fn forest_multiset<T: core::fmt::Debug + PartialOrd>(
    q: Seq<BinarySearchTree<T>>,
) -> Multiset<T>
    decreases q.len(),
{
    if q.len() == 0 {
        Multiset::empty()
    } else {
        q[0].spec_multiset().add(forest_multiset(q.drop_first()))
    }
}

proof fn lemma_forest_multiset_add<T: core::fmt::Debug + PartialOrd>(
    a: Seq<BinarySearchTree<T>>,
    b: Seq<BinarySearchTree<T>>,
)
    ensures
        forest_multiset(a + b) == forest_multiset(a).add(forest_multiset(b)),
    decreases a.len(),
{
    broadcast use group_multiset_axioms;

    if a.len() == 0 {
        assert(a + b =~= b);
        assert(forest_multiset(a + b) =~= forest_multiset(a).add(forest_multiset(b)));
    } else {
        assert((a + b).drop_first() =~= a.drop_first() + b);
        lemma_forest_multiset_add(a.drop_first(), b);
        assert(forest_multiset(a + b) =~= forest_multiset(a).add(forest_multiset(b)));
    }
}

proof fn lemma_level_order_forest_multiset<T: core::fmt::Debug + PartialOrd>(
    q: Seq<BinarySearchTree<T>>,
)
    ensures
        BinarySearchTree::<T>::level_order_forest(q).to_multiset() == forest_multiset(q),
    decreases BinarySearchTree::<T>::spec_count_forest(q), q.len(),
{
    broadcast use group_multiset_axioms, group_to_multiset_ensures;

    if q.len() == 0 {
        lemma_empty_seq_multiset::<T>();
    } else {
        let rest = q.drop_first();
        match q[0] {
            BinarySearchTree::Node { value, left, right } => {
                let q2 = rest + seq![*left, *right];
                BinarySearchTree::<T>::lemma_count_forest_add(rest, seq![*left, *right]);
                BinarySearchTree::<T>::lemma_count_forest_pair(*left, *right);
                lemma_level_order_forest_multiset(q2);
                lemma_forest_multiset_add(rest, seq![*left, *right]);
                assert(seq![*left, *right].drop_first() =~= seq![*right]);
                assert(seq![*right].drop_first() =~= Seq::<BinarySearchTree<T>>::empty());
                assert(forest_multiset(Seq::<BinarySearchTree<T>>::empty())
                    == Multiset::<T>::empty());
                assert(forest_multiset(seq![*right]) == right.spec_multiset().add(
                    Multiset::<T>::empty(),
                ));
                lemma_singleton_seq_multiset(value);
                lemma_multiset_commutative(
                    seq![value],
                    BinarySearchTree::<T>::level_order_forest(q2),
                );
                assert(BinarySearchTree::<T>::level_order_forest(q).to_multiset()
                    =~= forest_multiset(q));
            },
            BinarySearchTree::Empty => {
                lemma_level_order_forest_multiset(rest);
                assert(BinarySearchTree::<T>::level_order_forest(q).to_multiset()
                    =~= forest_multiset(q));
            },
        }
    }
}

/// The breadth-first listing holds exactly the tree's values.
pub proof fn lemma_level_order_multiset<T: core::fmt::Debug + PartialOrd>(t: BinarySearchTree<T>)
    ensures
        t.level_order_seq().to_multiset() == t.spec_multiset(),
{
    broadcast use group_multiset_axioms;

    lemma_level_order_forest_multiset(seq![t]);
    assert(seq![t].drop_first() =~= Seq::<BinarySearchTree<T>>::empty());
    assert(forest_multiset(Seq::<BinarySearchTree<T>>::empty()) == Multiset::<T>::empty());
    assert(forest_multiset(seq![t]) =~= t.spec_multiset());
}

/// Traversal completeness: the four traversal listings of a tree hold the
/// same multiset of values — only the order differs — and each has exactly
/// as many entries as the tree has `Node`s.
pub proof fn lemma_traversal_completeness<T: core::fmt::Debug + PartialOrd>(
    t: BinarySearchTree<T>,
)
    ensures
        t.pre_order_seq().to_multiset() == t.spec_multiset(),
        t.in_order_seq().to_multiset() == t.spec_multiset(),
        t.post_order_seq().to_multiset() == t.spec_multiset(),
        t.level_order_seq().to_multiset() == t.spec_multiset(),
        t.pre_order_seq().len() == t.spec_count(),
        t.in_order_seq().len() == t.spec_count(),
        t.post_order_seq().len() == t.spec_count(),
        t.level_order_seq().len() == t.spec_count(),
{
    broadcast use group_to_multiset_ensures;

    lemma_pre_order_multiset(t);
    lemma_in_order_multiset(t);
    lemma_post_order_multiset(t);
    lemma_level_order_multiset(t);
    lemma_multiset_len_is_count(t);
}

/// Inserting either leaves the tree exactly as it was (the value compared
/// neither `Less` nor `Greater` somewhere on its path) or adds the one new
/// value and nothing else.
pub proof fn lemma_insert_multiset_cases<T: core::fmt::Debug + PartialOrd>(
    t: BinarySearchTree<T>,
    v: T,
)
    ensures
        t.spec_insert(v) == t || t.spec_insert(v).spec_multiset() == t.spec_multiset().insert(v),
    decreases t,
{
    broadcast use group_multiset_axioms, group_multiset_properties;

    match t {
        BinarySearchTree::Node { value, left, right } => {
            match v.partial_cmp_spec(&value) {
                Some(Ordering::Less) => {
                    lemma_insert_multiset_cases(*left, v);
                    if left.spec_insert(v) != *left {
                        assert(t.spec_insert(v).spec_multiset() =~= t.spec_multiset().insert(v));
                    }
                },
                Some(Ordering::Greater) => {
                    lemma_insert_multiset_cases(*right, v);
                    if right.spec_insert(v) != *right {
                        assert(t.spec_insert(v).spec_multiset() =~= t.spec_multiset().insert(v));
                    }
                },
                _ => {},
            }
        },
        BinarySearchTree::Empty => {
            assert(t.spec_insert(v).spec_multiset() =~= t.spec_multiset().insert(v));
        },
    }
}

/// Inserting a value that compares `Less` or `Greater` against everything
/// already stored adds exactly that value.
pub proof fn lemma_insert_fresh<T: core::fmt::Debug + PartialOrd>(t: BinarySearchTree<T>, v: T)
    requires
        forall|x: T|
            #[trigger] t.contains_value(x) ==> (v.partial_cmp_spec(&x) == Some(Ordering::Less)
                || v.partial_cmp_spec(&x) == Some(Ordering::Greater)),
    ensures
        t.spec_insert(v).spec_multiset() == t.spec_multiset().insert(v),
    decreases t,
{
    broadcast use group_multiset_axioms, group_multiset_properties;

    match t {
        BinarySearchTree::Node { value, left, right } => {
            assert(t.spec_multiset().count(value) > 0);
            assert(t.contains_value(value));
            assert forall|x: T| #[trigger] left.contains_value(x) implies t.contains_value(x) by {
                assert(t.spec_multiset().count(x) >= left.spec_multiset().count(x));
            }
            assert forall|x: T| #[trigger] right.contains_value(x) implies t.contains_value(x) by {
                assert(t.spec_multiset().count(x) >= right.spec_multiset().count(x));
            }
            match v.partial_cmp_spec(&value) {
                Some(Ordering::Less) => {
                    lemma_insert_fresh(*left, v);
                    assert(t.spec_insert(v).spec_multiset() =~= t.spec_multiset().insert(v));
                },
                Some(Ordering::Greater) => {
                    lemma_insert_fresh(*right, v);
                    assert(t.spec_insert(v).spec_multiset() =~= t.spec_multiset().insert(v));
                },
                _ => {
                    assert(false);
                },
            }
        },
        BinarySearchTree::Empty => {
            assert(t.spec_insert(v).spec_multiset() =~= t.spec_multiset().insert(v));
        },
    }
}

/// Insertion preserves the BST ordering invariant.
pub proof fn lemma_insert_preserves_well_formed<T: core::fmt::Debug + PartialOrd>(
    t: BinarySearchTree<T>,
    v: T,
)
    requires
        t.well_formed(),
    ensures
        t.spec_insert(v).well_formed(),
    decreases t,
{
    broadcast use group_multiset_axioms, group_multiset_properties;

    match t {
        BinarySearchTree::Node { value, left, right } => {
            match v.partial_cmp_spec(&value) {
                Some(Ordering::Less) => {
                    lemma_insert_preserves_well_formed(*left, v);
                    lemma_insert_multiset_cases(*left, v);
                    assert forall|x: T|
                        left.spec_insert(v).contains_value(x) implies #[trigger] x.partial_cmp_spec(
                        &value,
                    ) == Some(Ordering::Less) by {
                        if left.spec_insert(v) == *left {
                            assert(left.contains_value(x));
                        } else {
                            assert(left.spec_insert(v).spec_multiset().count(x) > 0);
                            if x != v {
                                assert(left.spec_multiset().count(x) > 0);
                                assert(left.contains_value(x));
                            }
                        }
                    }
                    assert(t.spec_insert(v).well_formed());
                },
                Some(Ordering::Greater) => {
                    lemma_insert_preserves_well_formed(*right, v);
                    lemma_insert_multiset_cases(*right, v);
                    assert forall|x: T|
                        right.spec_insert(v).contains_value(x) implies #[trigger] x.partial_cmp_spec(
                        &value,
                    ) == Some(Ordering::Greater) by {
                        if right.spec_insert(v) == *right {
                            assert(right.contains_value(x));
                        } else {
                            assert(right.spec_insert(v).spec_multiset().count(x) > 0);
                            if x != v {
                                assert(right.spec_multiset().count(x) > 0);
                                assert(right.contains_value(x));
                            }
                        }
                    }
                    assert(t.spec_insert(v).well_formed());
                },
                _ => {},
            }
        },
        BinarySearchTree::Empty => {
            assert forall|x: T| !BinarySearchTree::<T>::Empty.contains_value(x) by {
                assert(BinarySearchTree::<T>::Empty.spec_multiset().count(x) == 0);
            }
            assert(t.spec_insert(v).well_formed());
        },
    }
}

/// Inserting the same value twice is the same as inserting it once, for any
/// value that does not compare strictly against itself (no sane ordering
/// makes a value less or greater than itself).
pub proof fn lemma_insert_duplicate<T: core::fmt::Debug + PartialOrd>(
    t: BinarySearchTree<T>,
    v: T,
)
    requires
        v.partial_cmp_spec(&v) != Some(Ordering::Less),
        v.partial_cmp_spec(&v) != Some(Ordering::Greater),
    ensures
        t.spec_insert(v).spec_insert(v) == t.spec_insert(v),
    decreases t,
{
    match t {
        BinarySearchTree::Node { value, left, right } => {
            match v.partial_cmp_spec(&value) {
                Some(Ordering::Less) => {
                    lemma_insert_duplicate(*left, v);
                },
                Some(Ordering::Greater) => {
                    lemma_insert_duplicate(*right, v);
                },
                _ => {},
            }
        },
        BinarySearchTree::Empty => {},
    }
}

/// The tree obtained by inserting the values of `vs` in order, starting
/// from `t`.
pub open spec fn insert_all<T: core::fmt::Debug + PartialOrd>(
    t: BinarySearchTree<T>,
    vs: Seq<T>,
) -> BinarySearchTree<T>
    decreases vs.len(),
{
    if vs.len() == 0 {
        t
    } else {
        insert_all(t, vs.drop_last()).spec_insert(vs.last())
    }
}

/// `vs` holds pairwise-distinct, mutually comparable values: any two at
/// different positions compare strictly, one way or the other.
pub open spec fn pairwise_comparable_distinct<T: core::fmt::Debug + PartialOrd>(
    vs: Seq<T>,
) -> bool {
    forall|i: int, j: int|
        0 <= i < vs.len() && 0 <= j < vs.len() && i != j ==> ((#[trigger] vs[i].partial_cmp_spec(
            &vs[j],
        )) == Some(Ordering::Less) || vs[i].partial_cmp_spec(&vs[j]) == Some(Ordering::Greater))
}

/// Size invariant: inserting pairwise-distinct, mutually comparable values
/// into an empty tree stores every one of them, so the tree's size equals
/// the number of values inserted.
pub proof fn lemma_insert_all_distinct<T: core::fmt::Debug + PartialOrd>(vs: Seq<T>)
    requires
        pairwise_comparable_distinct(vs),
    ensures
        insert_all(BinarySearchTree::Empty, vs).spec_multiset() == vs.to_multiset(),
        insert_all(BinarySearchTree::Empty, vs).spec_count() == vs.len(),
    decreases vs.len(),
{
    broadcast use group_multiset_axioms, group_to_multiset_ensures;

    let t = insert_all(BinarySearchTree::Empty, vs);
    lemma_multiset_len_is_count(t);
    if vs.len() == 0 {
        lemma_empty_seq_multiset::<T>();
    } else {
        let vs2 = vs.drop_last();
        let w = vs.last();
        let t2 = insert_all(BinarySearchTree::Empty, vs2);
        assert(pairwise_comparable_distinct(vs2)) by {
            assert forall|i: int, j: int|
                0 <= i < vs2.len() && 0 <= j < vs2.len() && i != j implies ((
            #[trigger] vs2[i].partial_cmp_spec(&vs2[j])) == Some(Ordering::Less)
                || vs2[i].partial_cmp_spec(&vs2[j]) == Some(Ordering::Greater)) by {
                assert(vs2[i] == vs[i]);
                assert(vs2[j] == vs[j]);
                assert((vs[i].partial_cmp_spec(&vs[j])) == Some(Ordering::Less)
                    || vs[i].partial_cmp_spec(&vs[j]) == Some(Ordering::Greater));
            }
        }
        lemma_insert_all_distinct(vs2);
        assert forall|x: T|
            #[trigger] t2.contains_value(x) implies (w.partial_cmp_spec(&x) == Some(Ordering::Less)
            || w.partial_cmp_spec(&x) == Some(Ordering::Greater)) by {
            assert(vs2.to_multiset().contains(x));
            assert(vs2.contains(x));
            let i = choose|i: int| 0 <= i < vs2.len() && vs2[i] == x;
            assert(vs[vs.len() - 1].partial_cmp_spec(&vs[i]) == Some(Ordering::Less)
                || vs[vs.len() - 1].partial_cmp_spec(&vs[i]) == Some(Ordering::Greater));
        }
        lemma_insert_fresh(t2, w);
        assert(vs =~= vs2.push(w));
        assert(vs2.push(w).to_multiset() =~= vs2.to_multiset().insert(w));
    }
}

/// Empty-tree sentinel: a tree with no `Node` stores nothing, every
/// traversal listing of it is empty, and it trivially satisfies the BST
/// ordering invariant. (The executable traversals return `None`, the
/// designed sentinel, exactly on such a tree.)
pub proof fn lemma_empty_tree<T: core::fmt::Debug + PartialOrd>()
    ensures
        BinarySearchTree::<T>::Empty.spec_count() == 0,
        BinarySearchTree::<T>::Empty.spec_multiset() == Multiset::<T>::empty(),
        BinarySearchTree::<T>::Empty.pre_order_seq() == Seq::<T>::empty(),
        BinarySearchTree::<T>::Empty.in_order_seq() == Seq::<T>::empty(),
        BinarySearchTree::<T>::Empty.post_order_seq() == Seq::<T>::empty(),
        BinarySearchTree::<T>::Empty.level_order_seq() == Seq::<T>::empty(),
        BinarySearchTree::<T>::Empty.well_formed(),
{
    let e = BinarySearchTree::<T>::Empty;
    assert(seq![e].drop_first() =~= Seq::<BinarySearchTree<T>>::empty());
    assert(BinarySearchTree::<T>::level_order_forest(Seq::<BinarySearchTree<T>>::empty())
        =~= Seq::<T>::empty());
    assert(e.level_order_seq() =~= Seq::<T>::empty());
}

/// The partial ordering is consistent both ways round: `a` compares `Less`
/// than `b` exactly when `b` compares `Greater` than `a`. Every lawful
/// `PartialOrd` implementation has this; it is stated as a hypothesis
/// because nothing forces an arbitrary implementation to obey it.
pub open spec fn ordering_dual<T: core::fmt::Debug + PartialOrd>() -> bool {
    forall|a: T, b: T|
        (#[trigger] a.partial_cmp_spec(&b)) == Some(Ordering::Less) <==> b.partial_cmp_spec(&a)
            == Some(Ordering::Greater)
}

/// `Less` is transitive, as every lawful `PartialOrd` implementation
/// guarantees.
pub open spec fn ordering_transitive<T: core::fmt::Debug + PartialOrd>() -> bool {
    forall|a: T, b: T, c: T|
        (#[trigger] a.partial_cmp_spec(&b)) == Some(Ordering::Less) && (
        #[trigger] b.partial_cmp_spec(&c)) == Some(Ordering::Less) ==> a.partial_cmp_spec(&c)
            == Some(Ordering::Less)
}

/// Every entry of `s` compares strictly `Less` than every later entry.
pub open spec fn strictly_ascending<T: core::fmt::Debug + PartialOrd>(s: Seq<T>) -> bool {
    forall|i: int, j: int|
        0 <= i < j < s.len() ==> (#[trigger] s[i].partial_cmp_spec(&s[j])) == Some(Ordering::Less)
}

/// BST invariant: under a dual, transitive ordering, the in-order listing
/// of a well-formed tree is sorted in ascending order.
pub proof fn lemma_in_order_sorted<T: core::fmt::Debug + PartialOrd>(t: BinarySearchTree<T>)
    requires
        t.well_formed(),
        ordering_dual::<T>(),
        ordering_transitive::<T>(),
    ensures
        strictly_ascending(t.in_order_seq()),
    decreases t,
{
    broadcast use group_multiset_axioms, group_to_multiset_ensures;

    match t {
        BinarySearchTree::Node { value, left, right } => {
            lemma_in_order_sorted(*left);
            lemma_in_order_sorted(*right);
            lemma_in_order_multiset(*left);
            lemma_in_order_multiset(*right);
            let ls = left.in_order_seq();
            let rs = right.in_order_seq();
            let s = t.in_order_seq();
            let ll = ls.len() as int;
            assert forall|i: int, j: int| 0 <= i < j < s.len() implies (
            #[trigger] s[i].partial_cmp_spec(&s[j])) == Some(Ordering::Less) by {
                if i < ll {
                    assert(s[i] == ls[i]);
                    assert(ls.contains(ls[i]));
                    assert(left.contains_value(s[i]));
                    assert(s[i].partial_cmp_spec(&value) == Some(Ordering::Less));
                }
                if j < ll {
                    assert(s[j] == ls[j]);
                }
                if i > ll {
                    assert(s[i] == rs[i - ll - 1]);
                }
                if j > ll {
                    assert(s[j] == rs[j - ll - 1]);
                    assert(rs.contains(rs[j - ll - 1]));
                    assert(right.contains_value(s[j]));
                    assert(s[j].partial_cmp_spec(&value) == Some(Ordering::Greater));
                    assert(value.partial_cmp_spec(&s[j]) == Some(Ordering::Less));
                }
                if i < ll && j < ll {
                    assert(ls[i].partial_cmp_spec(&ls[j]) == Some(Ordering::Less));
                } else if i < ll && j == ll {
                    assert(s[j] == value);
                } else if i < ll && j > ll {
                    assert(s[i].partial_cmp_spec(&value) == Some(Ordering::Less));
                    assert(value.partial_cmp_spec(&s[j]) == Some(Ordering::Less));
                } else if i == ll {
                    assert(s[i] == value);
                } else {
                    assert(rs[i - ll - 1].partial_cmp_spec(&rs[j - ll - 1])
                        == Some(Ordering::Less));
                }
            }
        },
        BinarySearchTree::Empty => {},
    }
}

} // verus!
