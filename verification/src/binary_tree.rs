//! An unbalanced binary search tree.
//!
//! A value that is less than the value of a node goes to that node's left,
//! every other value to its right, so equal values are kept and line up on
//! the right. Values are compared with `<` and `==` of their type.

use vstd::prelude::*;
use vstd::std_specs::cmp::{PartialEqSpec, PartialOrdIs, PartialOrdSpec};

verus! {

/// `a < b`, as the type of the values specifies it.
pub open spec fn precedes<T: PartialOrd>(a: T, b: T) -> bool {
    a.is_lt(&b)
}

/// `a == b`, as the type of the values specifies it.
pub open spec fn same<T: PartialEq>(a: T, b: T) -> bool {
    a.eq_spec(&b)
}

/// The comparisons of `T` return what their specifications say.
pub open spec fn comparisons_specified<T: PartialOrd>() -> bool {
    T::obeys_eq_spec() && T::obeys_partial_cmp_spec()
}

/// Equal values stand in the same order to every other value.
pub open spec fn order_respects_equality<T: PartialOrd>() -> bool {
    &&& forall|a: T, b: T, c: T| #[trigger] same(a, b) && #[trigger] precedes(a, c) ==> precedes(b, c)
    &&& forall|a: T, b: T, c: T| #[trigger] same(a, b) && #[trigger] precedes(b, c) ==> precedes(a, c)
}

/// What a tree is: empty, or a value with a tree on either side.
pub enum Shape<T> {
    Leaf,
    Fork { left: Box<Shape<T>>, value: T, right: Box<Shape<T>> },
}

impl<T> Shape<T> {
    /// Whether `after` is this tree with one of its empty places taken by a
    /// new node that holds `value` and has nothing on either side.
    pub open spec fn grown_by(self, after: Shape<T>, value: T) -> bool
        decreases self,
    {
        match self {
            Shape::Leaf => after == (Shape::Fork {
                left: Box::new(Shape::Leaf),
                value: value,
                right: Box::new(Shape::Leaf),
            }),
            Shape::Fork { left, value: at, right } => match after {
                Shape::Leaf => false,
                Shape::Fork { left: new_left, value: new_at, right: new_right } => {
                    &&& new_at == at
                    &&& {
                        ||| left.grown_by(*new_left, value) && new_right == right
                        ||| new_left == left && right.grown_by(*new_right, value)
                    }
                },
            },
        }
    }
}

impl<T: PartialOrd> Shape<T> {
    /// The tree with `value` in one new node at the first empty place that
    /// the descent reaches: left where `value` is less than a node's value,
    /// right otherwise.
    pub open spec fn inserted(self, value: T) -> Shape<T>
        decreases self,
    {
        match self {
            Shape::Leaf => Shape::Fork {
                left: Box::new(Shape::Leaf),
                value: value,
                right: Box::new(Shape::Leaf),
            },
            Shape::Fork { left, value: at, right } => if precedes(value, at) {
                Shape::Fork { left: Box::new(left.inserted(value)), value: at, right: right }
            } else {
                Shape::Fork { left: left, value: at, right: Box::new(right.inserted(value)) }
            },
        }
    }

    /// The tree after the values of `vals` were inserted, first element first.
    pub open spec fn inserted_all(self, vals: Seq<T>) -> Shape<T>
        decreases vals.len(),
    {
        if vals.len() == 0 {
            self
        } else {
            self.inserted_all(vals.drop_last()).inserted(vals.last())
        }
    }

    /// Whether the descent for `value` meets a node whose value equals it.
    pub open spec fn found(self, value: T) -> bool
        decreases self,
    {
        match self {
            Shape::Leaf => false,
            Shape::Fork { left, value: at, right } => same(at, value) || if precedes(value, at) {
                left.found(value)
            } else {
                right.found(value)
            },
        }
    }

    /// Whether some node of the tree holds exactly `value`.
    pub open spec fn has(self, value: T) -> bool
        decreases self,
    {
        match self {
            Shape::Leaf => false,
            Shape::Fork { left, value: at, right } => at == value || left.has(value) || right.has(
                value,
            ),
        }
    }

    /// Whether some node of the tree holds a value that equals `value`.
    pub open spec fn holds_equal(self, value: T) -> bool {
        exists|v: T| #[trigger] self.has(v) && same(v, value)
    }

    /// At every node, the values on its left are less than its value and
    /// the values on its right are not.
    pub open spec fn ordered(self) -> bool
        decreases self,
    {
        match self {
            Shape::Leaf => true,
            Shape::Fork { left, value: at, right } => {
                &&& left.ordered()
                &&& right.ordered()
                &&& forall|v: T| #[trigger] left.has(v) ==> precedes(v, at)
                &&& forall|v: T| #[trigger] right.has(v) ==> !precedes(v, at)
            },
        }
    }
}

/// An insertion adds one value to the values of a tree and takes none away.
pub proof fn lemma_inserted_has<T: PartialOrd>(tree: Shape<T>, value: T, v: T)
    ensures
        tree.inserted(value).has(v) <==> tree.has(v) || v == value,
    decreases tree,
{
    match tree {
        Shape::Leaf => {
            assert(!Shape::<T>::Leaf.has(v));
        },
        Shape::Fork { left, value: at, right } => {
            lemma_inserted_has(*left, value, v);
            lemma_inserted_has(*right, value, v);
        },
    }
}

/// An insertion into an ordered tree leaves it ordered.
pub proof fn lemma_inserted_ordered<T: PartialOrd>(tree: Shape<T>, value: T)
    requires
        tree.ordered(),
    ensures
        tree.inserted(value).ordered(),
    decreases tree,
{
    match tree {
        Shape::Leaf => {
            assert(Shape::<T>::Leaf.ordered());
            assert forall|v: T| !(#[trigger] Shape::<T>::Leaf.has(v)) by {}
        },
        Shape::Fork { left, value: at, right } => {
            lemma_inserted_ordered(*left, value);
            lemma_inserted_ordered(*right, value);
            assert forall|v: T| #[trigger] left.inserted(value).has(v) implies left.has(v) || v
                == value by {
                lemma_inserted_has(*left, value, v);
            }
            assert forall|v: T| #[trigger] right.inserted(value).has(v) implies right.has(v) || v
                == value by {
                lemma_inserted_has(*right, value, v);
            }
        },
    }
}

/// In an ordered tree the descent for a value finds it exactly when the tree
/// holds a value equal to it.
pub proof fn lemma_found_iff_holds_equal<T: PartialOrd>(tree: Shape<T>, value: T)
    requires
        tree.ordered(),
        order_respects_equality::<T>(),
    ensures
        tree.found(value) <==> tree.holds_equal(value),
    decreases tree,
{
    match tree {
        Shape::Leaf => {},
        Shape::Fork { left, value: at, right } => {
            lemma_found_iff_holds_equal(*left, value);
            lemma_found_iff_holds_equal(*right, value);
            if tree.found(value) {
                if same(at, value) {
                    assert(tree.has(at));
                } else if precedes(value, at) {
                    let w = choose|w: T| #[trigger] left.has(w) && same(w, value);
                    assert(tree.has(w));
                } else {
                    let w = choose|w: T| #[trigger] right.has(w) && same(w, value);
                    assert(tree.has(w));
                }
            }
            if tree.holds_equal(value) {
                let w = choose|w: T| #[trigger] tree.has(w) && same(w, value);
                if w == at {
                } else if left.has(w) {
                    assert(precedes(w, at));
                    assert(precedes(value, at));
                    assert(left.holds_equal(value));
                } else {
                    assert(right.has(w));
                    assert(!precedes(w, at));
                    assert(!precedes(value, at));
                    assert(right.holds_equal(value));
                }
            }
        },
    }
}

/// After a run of insertions into an ordered tree, the tree is ordered and
/// holds what it held before and the inserted values.
pub proof fn lemma_inserted_all<T: PartialOrd>(tree: Shape<T>, vals: Seq<T>)
    requires
        tree.ordered(),
    ensures
        tree.inserted_all(vals).ordered(),
        forall|v: T| #[trigger] tree.inserted_all(vals).has(v) <==> tree.has(v) || vals.contains(v),
    decreases vals.len(),
{
    if vals.len() > 0 {
        let init = vals.drop_last();
        lemma_inserted_all(tree, init);
        lemma_inserted_ordered(tree.inserted_all(init), vals.last());
        assert forall|v: T| #[trigger] tree.inserted_all(vals).has(v) <==> tree.has(v)
            || vals.contains(v) by {
            lemma_inserted_has(tree.inserted_all(init), vals.last(), v);
            if init.contains(v) {
                let i = choose|i: int| 0 <= i < init.len() && init[i] == v;
                assert(vals[i] == v);
            }
            if vals.contains(v) && v != vals.last() {
                let i = choose|i: int| 0 <= i < vals.len() && vals[i] == v;
                assert(init[i] == v);
            }
            if v == vals.last() {
                assert(vals[vals.len() - 1] == v);
            }
        }
    }
}

/// Membership: in a tree grown from the empty tree by inserting the values
/// of `vals`, the descent for `value` succeeds exactly when one of the
/// inserted values equals `value`.
pub proof fn lemma_found_iff_inserted<T: PartialOrd>(vals: Seq<T>, value: T)
    requires
        order_respects_equality::<T>(),
    ensures
        Shape::<T>::Leaf.inserted_all(vals).found(value) <==> exists|i: int|
            0 <= i < vals.len() && same(#[trigger] vals[i], value),
{
    let grown = Shape::<T>::Leaf.inserted_all(vals);
    lemma_inserted_all(Shape::<T>::Leaf, vals);
    lemma_found_iff_holds_equal(grown, value);
    if grown.holds_equal(value) {
        let w = choose|w: T| #[trigger] grown.has(w) && same(w, value);
        assert(vals.contains(w));
        let i = choose|i: int| 0 <= i < vals.len() && vals[i] == w;
        assert(same(vals[i], value));
    }
    if exists|i: int| 0 <= i < vals.len() && same(#[trigger] vals[i], value) {
        let i = choose|i: int| 0 <= i < vals.len() && same(#[trigger] vals[i], value);
        assert(vals.contains(vals[i]));
        assert(grown.has(vals[i]));
    }
}

/// One node of a tree: a value and the trees on its two sides.
#[derive(Debug)]
pub struct Node<T> {
    value: T,
    left: BinaryTree<T>,
    right: BinaryTree<T>,
}

/// A binary search tree.
#[derive(Debug)]
pub struct BinaryTree<T> {
    root: Option<Box<Node<T>>>,
}

impl<T> Node<T> {
    /// The value the node holds.
    pub closed spec fn value_view(&self) -> T {
        self.value
    }

    /// The tree on the node's left.
    pub closed spec fn left_view(&self) -> Shape<T> {
        self.left.shape()
    }

    /// The tree on the node's right.
    pub closed spec fn right_view(&self) -> Shape<T> {
        self.right.shape()
    }

    /// The value the node holds.
    pub fn value(&self) -> (value: &T)
        ensures
            *value == self.value_view(),
    {
        &self.value
    }

    /// The tree on the node's left.
    pub fn left(&self) -> (left: &BinaryTree<T>)
        ensures
            left@ == self.left_view(),
    {
        &self.left
    }

    /// The tree on the node's right.
    pub fn right(&self) -> (right: &BinaryTree<T>)
        ensures
            right@ == self.right_view(),
    {
        &self.right
    }
}

impl<T> BinaryTree<T> {
    /// The tree's shape and values.
    pub closed spec fn shape(&self) -> Shape<T>
        decreases self,
    {
        match self.root {
            None => Shape::Leaf,
            Some(node) => Shape::Fork {
                left: Box::new(node.left.shape()),
                value: node.value,
                right: Box::new(node.right.shape()),
            },
        }
    }

    /// The root node; none in an empty tree.
    pub fn root(&self) -> (root: Option<&Node<T>>)
        ensures
            match root {
                None => self@ == Shape::<T>::Leaf,
                Some(node) => self@ == (Shape::Fork {
                    left: Box::new(node.left_view()),
                    value: node.value_view(),
                    right: Box::new(node.right_view()),
                }),
            },
    {
        match &self.root {
            Some(node) => Some(&**node),
            None => None,
        }
    }
}

impl<T> View for BinaryTree<T> {
    type V = Shape<T>;

    open spec fn view(&self) -> Shape<T> {
        self.shape()
    }
}

impl<T: PartialOrd> BinaryTree<T> {
    /// The empty tree, or the tree of one node that holds the given value.
    pub fn new(value: Option<T>) -> (tree: Self)
        ensures
            tree@ == match value {
                Some(v) => Shape::<T>::Leaf.inserted(v),
                None => Shape::<T>::Leaf,
            },
            tree@.ordered(),
    {
        proof {
            if value is Some {
                lemma_inserted_ordered(Shape::<T>::Leaf, value.unwrap());
            }
        }
        match value {
            Some(value) => {
                let left = BinaryTree { root: None };
                let right = BinaryTree { root: None };
                assert(left.shape() == Shape::<T>::Leaf);
                assert(right.shape() == Shape::<T>::Leaf);
                BinaryTree { root: Some(Box::new(Node { value: value, left: left, right: right })) }
            },
            None => BinaryTree { root: None },
        }
    }

    /// Puts `value` in a new node at the first empty place that the descent
    /// from the root reaches. Nothing is rebalanced and no value is dropped:
    /// whatever the comparisons answer, the tree grows by that one node.
    pub fn insert(&mut self, value: T)
        ensures
            old(self)@.grown_by(final(self)@, value),
            comparisons_specified::<T>() ==> final(self)@ == old(self)@.inserted(value),
            comparisons_specified::<T>() && old(self)@.ordered() ==> final(self)@.ordered(),
        decreases *old(self),
    {
        proof {
            if old(self)@.ordered() {
                lemma_inserted_ordered(old(self)@, value);
            }
        }
        match self.root.take() {
            Some(mut node) => {
                if value < node.value {
                    node.left.insert(value);
                } else {
                    node.right.insert(value);
                }
                self.root = Some(node);
            },
            None => {
                let left = BinaryTree { root: None };
                let right = BinaryTree { root: None };
                assert(left.shape() == Shape::<T>::Leaf);
                assert(right.shape() == Shape::<T>::Leaf);
                self.root = Some(Box::new(Node { value: value, left: left, right: right }));
            },
        }
    }

    /// Whether the descent for `value` meets a node whose value equals it.
    fn search(&self, value: &T) -> (found: bool)
        ensures
            comparisons_specified::<T>() ==> found == self@.found(*value),
        decreases self,
    {
        match &self.root {
            Some(node) => {
                if node.value == *value {
                    true
                } else if *value < node.value {
                    node.left.search(value)
                } else {
                    node.right.search(value)
                }
            },
            None => false,
        }
    }

    /// Whether the descent for `value` meets a node whose value equals it.
    /// In an ordered tree, over values whose order respects their equality,
    /// that is whether the tree holds a value equal to `value` at all.
    /// The tree is left as it is.
    pub fn contains(&mut self, value: T) -> (found: bool)
        ensures
            final(self)@ == old(self)@,
            comparisons_specified::<T>() ==> found == old(self)@.found(value),
            comparisons_specified::<T>() && order_respects_equality::<T>() && old(self)@.ordered()
                ==> found == old(self)@.holds_equal(value),
    {
        proof {
            if order_respects_equality::<T>() && old(self)@.ordered() {
                lemma_found_iff_holds_equal(old(self)@, value);
            }
        }
        self.search(&value)
    }
}

} // verus!
