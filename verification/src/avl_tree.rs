//! An AVL tree: a binary search tree that rebalances itself by rotations
//! whenever an insertion makes one side of a node two levels higher than the
//! other.

use crate::order::{key_lt, lemma_total_order, less, total_order};
use vstd::prelude::*;

verus! {

/// A self-balancing binary search tree.
pub struct AvlTree<T> {
    root: Option<Box<AvlNode<T>>>,
}

/// A node of the tree with the height of the subtree below it.
pub struct AvlNode<T> {
    data: T,
    left: Option<Box<AvlNode<T>>>,
    right: Option<Box<AvlNode<T>>>,
    height: usize,
}

impl<T: Ord> AvlNode<T> {
    /// The elements of an optional subtree.
    pub closed spec fn opt_set(node: Option<Box<Self>>) -> Set<T>
        decreases node,
    {
        match node {
            None => Set::empty(),
            Some(n) => n.set(),
        }
    }

    /// The elements of the subtree.
    pub closed spec fn set(&self) -> Set<T>
        decreases self,
    {
        Self::opt_set(self.left).union(Self::opt_set(self.right)).insert(self.data)
    }

    /// The number of levels of an optional subtree.
    pub closed spec fn opt_levels(node: Option<Box<Self>>) -> nat
        decreases node,
    {
        match node {
            None => 0,
            Some(n) => n.levels(),
        }
    }

    /// The number of levels of the subtree: 1 for a node without children.
    pub closed spec fn levels(&self) -> nat
        decreases self,
    {
        let l = Self::opt_levels(self.left);
        let r = Self::opt_levels(self.right);
        if l >= r {
            l + 1
        } else {
            r + 1
        }
    }

    /// `opt_sound` of an optional subtree.
    pub closed spec fn opt_sound(node: Option<Box<Self>>) -> bool
        decreases node,
    {
        match node {
            None => true,
            Some(n) => n.sound(),
        }
    }

    /// The subtree is a search tree and every node records its number of
    /// levels: all that is left of a node is below it, all that is right of
    /// it above.
    pub closed spec fn sound(&self) -> bool
        decreases self,
    {
        &&& Self::opt_sound(self.left)
        &&& Self::opt_sound(self.right)
        &&& forall|x: T| #[trigger] Self::opt_set(self.left).contains(x) ==> key_lt(x, self.data)
        &&& forall|x: T| #[trigger] Self::opt_set(self.right).contains(x) ==> key_lt(self.data, x)
        &&& self.height == self.levels()
    }

    /// `balanced` of an optional subtree.
    pub closed spec fn opt_balanced(node: Option<Box<Self>>) -> bool
        decreases node,
    {
        match node {
            None => true,
            Some(n) => n.balanced(),
        }
    }

    /// At every node the two sides differ by one level at most.
    pub closed spec fn balanced(&self) -> bool
        decreases self,
    {
        &&& Self::opt_balanced(self.left)
        &&& Self::opt_balanced(self.right)
        &&& Self::opt_levels(self.left) <= Self::opt_levels(self.right) + 1
        &&& Self::opt_levels(self.right) <= Self::opt_levels(self.left) + 1
    }

    /// The invariant of a subtree: `sound` and `balanced`.
    pub open spec fn wf(&self) -> bool {
        self.sound() && self.balanced()
    }

    /// The element at the node.
    pub closed spec fn spec_data(&self) -> T {
        self.data
    }

    /// The left side of the node.
    pub closed spec fn spec_left(&self) -> Option<Box<Self>> {
        self.left
    }

    /// The right side of the node.
    pub closed spec fn spec_right(&self) -> Option<Box<Self>> {
        self.right
    }

    /// The node has no children and records one level.
    pub closed spec fn is_leaf(&self) -> bool {
        self.left is None && self.right is None && self.height == 1
    }

    /// A node without children that holds `element`.
    pub fn new(element: T) -> (node: AvlNode<T>)
        ensures
            node.is_leaf(),
            node.spec_data() == element,
            node.wf(),
            node.set() == set![element],
            node.levels() == 1,
    {
        let node = AvlNode { data: element, left: None, right: None, height: 1 };
        proof {
            assert(node.set() =~= set![element]);
        }
        node
    }

    /// The element at the node.
    pub fn data(&self) -> (data: &T)
        ensures
            *data == self.spec_data(),
    {
        &self.data
    }

    /// The left child.
    pub fn left_child(&self) -> (child: Option<&AvlNode<T>>)
        ensures
            child is Some <==> self.spec_left() is Some,
            child matches Some(c) ==> *c == *self.spec_left().unwrap(),
    {
        match &self.left {
            None => None,
            Some(node) => Some(&**node),
        }
    }

    /// The right child.
    pub fn right_child(&self) -> (child: Option<&AvlNode<T>>)
        ensures
            child is Some <==> self.spec_right() is Some,
            child matches Some(c) ==> *c == *self.spec_right().unwrap(),
    {
        match &self.right {
            None => None,
            Some(node) => Some(&**node),
        }
    }

    /// The number of levels recorded for the left side, 0 if it is empty.
    fn left_height(&self) -> (h: usize)
        requires
            Self::opt_sound(self.left),
        ensures
            h == Self::opt_levels(self.left),
    {
        match &self.left {
            None => 0,
            Some(node) => node.height,
        }
    }

    /// The number of levels recorded for the right side, 0 if it is empty.
    fn right_height(&self) -> (h: usize)
        requires
            Self::opt_sound(self.right),
        ensures
            h == Self::opt_levels(self.right),
    {
        match &self.right {
            None => 0,
            Some(node) => node.height,
        }
    }

    /// Sets the recorded height from the heights recorded for the children.
    fn update_height(&mut self)
        requires
            Self::opt_sound(old(self).left),
            Self::opt_sound(old(self).right),
            old(self).levels() <= usize::MAX,
        ensures
            final(self).data == old(self).data,
            final(self).left == old(self).left,
            final(self).right == old(self).right,
            final(self).height == final(self).levels(),
    {
        let l = self.left_height();
        let r = self.right_height();
        let new_height = if l >= r {
            l + 1
        } else {
            r + 1
        };
        self.height = new_height;
    }

    /// A node is sound if its children are, it lies between them, and it
    /// records its number of levels.
    proof fn lemma_sound(&self)
        requires
            Self::opt_sound(self.left),
            Self::opt_sound(self.right),
            forall|x: T| #[trigger] Self::opt_set(self.left).contains(x) ==> key_lt(x, self.data),
            forall|x: T| #[trigger] Self::opt_set(self.right).contains(x) ==> key_lt(self.data, x),
            self.height == self.levels(),
        ensures
            self.sound(),
    {
    }

    /// A node is balanced if its children are and its sides differ by one
    /// level at most.
    proof fn lemma_balanced(&self)
        requires
            Self::opt_balanced(self.left),
            Self::opt_balanced(self.right),
            Self::opt_levels(self.left) <= Self::opt_levels(self.right) + 1,
            Self::opt_levels(self.right) <= Self::opt_levels(self.left) + 1,
        ensures
            self.balanced(),
    {
    }

    /// What `sound` and `balanced` say of the node itself.
    proof fn lemma_unfold(&self)
        ensures
            self.sound() ==> {
                &&& Self::opt_sound(self.left)
                &&& Self::opt_sound(self.right)
                &&& forall|x: T| #[trigger]
                    Self::opt_set(self.left).contains(x) ==> key_lt(x, self.data)
                &&& forall|x: T| #[trigger]
                    Self::opt_set(self.right).contains(x) ==> key_lt(self.data, x)
                &&& self.height == self.levels()
            },
            self.balanced() ==> {
                &&& Self::opt_balanced(self.left)
                &&& Self::opt_balanced(self.right)
                &&& Self::opt_levels(self.left) <= Self::opt_levels(self.right) + 1
                &&& Self::opt_levels(self.right) <= Self::opt_levels(self.left) + 1
            },
            self.set() == Self::opt_set(self.left).union(Self::opt_set(self.right)).insert(
                self.data,
            ),
            self.levels() == (if Self::opt_levels(self.left) >= Self::opt_levels(self.right) {
                Self::opt_levels(self.left) + 1
            } else {
                Self::opt_levels(self.right) + 1
            }),
            self.levels() >= 1,
    {
    }

    /// Turns the left child into the root: the old root becomes its right
    /// child and takes over what was the right side of the left child.
    fn single_rotate_with_left(root: Box<AvlNode<T>>) -> (new_root: Box<AvlNode<T>>)
        requires
            total_order::<T>(),
            root.left is Some,
            root.levels() < usize::MAX,
            Self::opt_sound(root.left),
            Self::opt_sound(root.right),
            forall|x: T| #[trigger] Self::opt_set(root.left).contains(x) ==> key_lt(x, root.data),
            forall|x: T| #[trigger] Self::opt_set(root.right).contains(x) ==> key_lt(root.data, x),
        ensures
            new_root.sound(),
            new_root.set() == root.set(),
            new_root.data == root.left.unwrap().data,
            new_root.left == root.left.unwrap().left,
            new_root.right is Some,
            new_root.right.unwrap().data == root.data,
            new_root.right.unwrap().left == root.left.unwrap().right,
            new_root.right.unwrap().right == root.right,
    {
        let mut root = root;
        let ghost before = *root;
        let ghost pivot = *before.left.unwrap();
        proof {
            lemma_total_order::<T>();
            before.lemma_unfold();
            pivot.lemma_unfold();
        }
        let mut new_root = root.left.take().unwrap();
        let new_left_of_root = new_root.right.take();
        root.left = new_left_of_root;
        proof {
            root.lemma_unfold();
            assert forall|x: T| #[trigger] Self::opt_set(root.left).contains(x) implies key_lt(
                x,
                root.data,
            ) by {
                assert(Self::opt_set(pivot.right).contains(x));
                assert(pivot.set().contains(x));
                assert(Self::opt_set(before.left).contains(x));
            }
        }
        root.update_height();
        proof {
            root.lemma_sound();
            root.lemma_unfold();
        }
        let ghost lowered = *root;
        new_root.right = Some(root);
        proof {
            new_root.lemma_unfold();
            assert forall|x: T| #[trigger] Self::opt_set(new_root.right).contains(x) implies key_lt(
                new_root.data,
                x,
            ) by {
                assert(lowered.set().contains(x));
                assert(pivot.set().contains(pivot.data));
                assert(Self::opt_set(before.left).contains(pivot.data));
                if Self::opt_set(before.right).contains(x) {
                }
            }
        }
        new_root.update_height();
        proof {
            new_root.lemma_sound();
            new_root.lemma_unfold();
            assert(new_root.set() =~= before.set());
        }
        new_root
    }

    /// Turns the right child into the root: the old root becomes its left
    /// child and takes over what was the left side of the right child.
    fn single_rotate_with_right(root: Box<AvlNode<T>>) -> (new_root: Box<AvlNode<T>>)
        requires
            total_order::<T>(),
            root.right is Some,
            root.levels() < usize::MAX,
            Self::opt_sound(root.left),
            Self::opt_sound(root.right),
            forall|x: T| #[trigger] Self::opt_set(root.left).contains(x) ==> key_lt(x, root.data),
            forall|x: T| #[trigger] Self::opt_set(root.right).contains(x) ==> key_lt(root.data, x),
        ensures
            new_root.sound(),
            new_root.set() == root.set(),
            new_root.data == root.right.unwrap().data,
            new_root.right == root.right.unwrap().right,
            new_root.left is Some,
            new_root.left.unwrap().data == root.data,
            new_root.left.unwrap().right == root.right.unwrap().left,
            new_root.left.unwrap().left == root.left,
    {
        let mut root = root;
        let ghost before = *root;
        let ghost pivot = *before.right.unwrap();
        proof {
            lemma_total_order::<T>();
            before.lemma_unfold();
            pivot.lemma_unfold();
        }
        let mut new_root = root.right.take().unwrap();
        let new_right_of_root = new_root.left.take();
        root.right = new_right_of_root;
        proof {
            root.lemma_unfold();
            assert forall|x: T| #[trigger] Self::opt_set(root.right).contains(x) implies key_lt(
                root.data,
                x,
            ) by {
                assert(Self::opt_set(pivot.left).contains(x));
                assert(pivot.set().contains(x));
                assert(Self::opt_set(before.right).contains(x));
            }
        }
        root.update_height();
        proof {
            root.lemma_sound();
            root.lemma_unfold();
        }
        let ghost lowered = *root;
        new_root.left = Some(root);
        proof {
            new_root.lemma_unfold();
            assert forall|x: T| #[trigger] Self::opt_set(new_root.left).contains(x) implies key_lt(
                x,
                new_root.data,
            ) by {
                assert(lowered.set().contains(x));
                assert(pivot.set().contains(pivot.data));
                assert(Self::opt_set(before.right).contains(pivot.data));
                if Self::opt_set(before.left).contains(x) {
                }
            }
        }
        new_root.update_height();
        proof {
            new_root.lemma_sound();
            new_root.lemma_unfold();
            assert(new_root.set() =~= before.set());
        }
        new_root
    }
}


impl<T: Ord> AvlNode<T> {
    /// Rotates the left child to the left and then the root to the right:
    /// the right child of the left child becomes the root.
    fn double_rotate_with_left(root: Box<AvlNode<T>>) -> (new_root: Box<AvlNode<T>>)
        requires
            total_order::<T>(),
            root.left is Some,
            root.left.unwrap().right is Some,
            root.levels() + 1 < usize::MAX,
            Self::opt_sound(root.left),
            Self::opt_sound(root.right),
            forall|x: T| #[trigger] Self::opt_set(root.left).contains(x) ==> key_lt(x, root.data),
            forall|x: T| #[trigger] Self::opt_set(root.right).contains(x) ==> key_lt(root.data, x),
        ensures
            new_root.sound(),
            new_root.set() == root.set(),
            new_root.data == root.left.unwrap().right.unwrap().data,
            new_root.left is Some,
            new_root.left.unwrap().data == root.left.unwrap().data,
            new_root.left.unwrap().left == root.left.unwrap().left,
            new_root.left.unwrap().right == root.left.unwrap().right.unwrap().left,
            new_root.right is Some,
            new_root.right.unwrap().data == root.data,
            new_root.right.unwrap().left == root.left.unwrap().right.unwrap().right,
            new_root.right.unwrap().right == root.right,
    {
        let mut root = root;
        let ghost before = *root;
        proof {
            before.lemma_unfold();
            before.left.unwrap().lemma_unfold();
        }
        let left = root.left.take().unwrap();
        let turned = Self::single_rotate_with_right(left);
        proof {
            turned.lemma_unfold();
        }
        root.left = Some(turned);
        proof {
            root.lemma_unfold();
            assert(root.set() =~= before.set());
        }
        Self::single_rotate_with_left(root)
    }

    /// Rotates the right child to the right and then the root to the left:
    /// the left child of the right child becomes the root.
    fn double_rotate_with_right(root: Box<AvlNode<T>>) -> (new_root: Box<AvlNode<T>>)
        requires
            total_order::<T>(),
            root.right is Some,
            root.right.unwrap().left is Some,
            root.levels() + 1 < usize::MAX,
            Self::opt_sound(root.left),
            Self::opt_sound(root.right),
            forall|x: T| #[trigger] Self::opt_set(root.left).contains(x) ==> key_lt(x, root.data),
            forall|x: T| #[trigger] Self::opt_set(root.right).contains(x) ==> key_lt(root.data, x),
        ensures
            new_root.sound(),
            new_root.set() == root.set(),
            new_root.data == root.right.unwrap().left.unwrap().data,
            new_root.right is Some,
            new_root.right.unwrap().data == root.right.unwrap().data,
            new_root.right.unwrap().right == root.right.unwrap().right,
            new_root.right.unwrap().left == root.right.unwrap().left.unwrap().right,
            new_root.left is Some,
            new_root.left.unwrap().data == root.data,
            new_root.left.unwrap().right == root.right.unwrap().left.unwrap().left,
            new_root.left.unwrap().left == root.left,
    {
        let mut root = root;
        let ghost before = *root;
        proof {
            before.lemma_unfold();
            before.right.unwrap().lemma_unfold();
        }
        let right = root.right.take().unwrap();
        let turned = Self::single_rotate_with_left(right);
        proof {
            turned.lemma_unfold();
        }
        root.right = Some(turned);
        proof {
            root.lemma_unfold();
            assert(root.set() =~= before.set());
        }
        Self::single_rotate_with_right(root)
    }

    /// What an insertion of `element` into the subtree `before` owes: the
    /// subtree `after` is well formed and holds `element` besides what
    /// `before` held; it has as many levels or one more; and if it has one
    /// more, its root is the old one and the side that `element` went to is
    /// the higher one.
    pub open spec fn inserted(before: &Self, element: T, after: &Self) -> bool {
        let h = before.levels();
        &&& after.wf()
        &&& after.set() == before.set().insert(element)
        &&& h <= after.levels() <= h + 1
        &&& after.levels() == h + 1 ==> {
            &&& after.spec_data() == before.spec_data()
            &&& key_lt(element, after.spec_data()) ==> Self::opt_levels(after.spec_left()) == h
                && Self::opt_levels(after.spec_right()) + 1 == h
            &&& key_lt(after.spec_data(), element) ==> Self::opt_levels(after.spec_right()) == h
                && Self::opt_levels(after.spec_left()) + 1 == h
            &&& element != after.spec_data()
        }
    }

    /// Rebalances a node whose left side may have become two levels higher
    /// than its right side.  `single` says whether the left child's own left
    /// side is the higher one.
    fn rebalance_left(root: Box<AvlNode<T>>, single: bool) -> (new_root: Box<AvlNode<T>>)
        requires
            total_order::<T>(),
            root.sound(),
            Self::opt_balanced(root.left),
            Self::opt_balanced(root.right),
            root.levels() + 1 < usize::MAX,
            Self::opt_levels(root.right) <= Self::opt_levels(root.left) + 1,
            Self::opt_levels(root.left) <= Self::opt_levels(root.right) + 2,
            Self::opt_levels(root.left) == Self::opt_levels(root.right) + 2 ==> {
                let l = root.left.unwrap();
                &&& single ==> Self::opt_levels(l.left) == Self::opt_levels(root.right) + 1
                    && Self::opt_levels(l.right) == Self::opt_levels(root.right)
                &&& !single ==> Self::opt_levels(l.right) == Self::opt_levels(root.right) + 1
                    && Self::opt_levels(l.left) == Self::opt_levels(root.right)
            },
        ensures
            new_root.wf(),
            new_root.set() == root.set(),
            Self::opt_levels(root.left) == Self::opt_levels(root.right) + 2 ==> new_root.levels()
                + 1 == root.levels(),
            Self::opt_levels(root.left) != Self::opt_levels(root.right) + 2 ==> new_root == root,
    {
        proof {
            root.lemma_unfold();
        }
        if root.left_height() == root.right_height() + 2 {
            proof {
                let l = *root.left.unwrap();
                l.lemma_unfold();
            }
            if single {
                let new_root = Self::single_rotate_with_left(root);
                proof {
                    let low = *new_root.right.unwrap();
                    low.lemma_unfold();
                    low.lemma_balanced();
                    new_root.lemma_unfold();
                    new_root.lemma_balanced();
                }
                new_root
            } else {
                proof {
                    let pivot = *root.left.unwrap().right.unwrap();
                    pivot.lemma_unfold();
                }
                let new_root = Self::double_rotate_with_left(root);
                proof {
                    let l = *new_root.left.unwrap();
                    let r = *new_root.right.unwrap();
                    l.lemma_unfold();
                    l.lemma_balanced();
                    r.lemma_unfold();
                    r.lemma_balanced();
                    new_root.lemma_unfold();
                    new_root.lemma_balanced();
                }
                new_root
            }
        } else {
            proof {
                root.lemma_balanced();
            }
            root
        }
    }

    /// Rebalances a node whose right side may have become two levels higher
    /// than its left side.  `single` says whether the right child's own
    /// right side is the higher one.
    fn rebalance_right(root: Box<AvlNode<T>>, single: bool) -> (new_root: Box<AvlNode<T>>)
        requires
            total_order::<T>(),
            root.sound(),
            Self::opt_balanced(root.left),
            Self::opt_balanced(root.right),
            root.levels() + 1 < usize::MAX,
            Self::opt_levels(root.left) <= Self::opt_levels(root.right) + 1,
            Self::opt_levels(root.right) <= Self::opt_levels(root.left) + 2,
            Self::opt_levels(root.right) == Self::opt_levels(root.left) + 2 ==> {
                let r = root.right.unwrap();
                &&& single ==> Self::opt_levels(r.right) == Self::opt_levels(root.left) + 1
                    && Self::opt_levels(r.left) == Self::opt_levels(root.left)
                &&& !single ==> Self::opt_levels(r.left) == Self::opt_levels(root.left) + 1
                    && Self::opt_levels(r.right) == Self::opt_levels(root.left)
            },
        ensures
            new_root.wf(),
            new_root.set() == root.set(),
            Self::opt_levels(root.right) == Self::opt_levels(root.left) + 2 ==> new_root.levels()
                + 1 == root.levels(),
            Self::opt_levels(root.right) != Self::opt_levels(root.left) + 2 ==> new_root == root,
    {
        proof {
            root.lemma_unfold();
        }
        if root.right_height() == root.left_height() + 2 {
            proof {
                let r = *root.right.unwrap();
                r.lemma_unfold();
            }
            if single {
                let new_root = Self::single_rotate_with_right(root);
                proof {
                    let low = *new_root.left.unwrap();
                    low.lemma_unfold();
                    low.lemma_balanced();
                    new_root.lemma_unfold();
                    new_root.lemma_balanced();
                }
                new_root
            } else {
                proof {
                    let pivot = *root.right.unwrap().left.unwrap();
                    pivot.lemma_unfold();
                }
                let new_root = Self::double_rotate_with_right(root);
                proof {
                    let l = *new_root.left.unwrap();
                    let r = *new_root.right.unwrap();
                    l.lemma_unfold();
                    l.lemma_balanced();
                    r.lemma_unfold();
                    r.lemma_balanced();
                    new_root.lemma_unfold();
                    new_root.lemma_balanced();
                }
                new_root
            }
        } else {
            proof {
                root.lemma_balanced();
            }
            root
        }
    }

    /// Puts the node `leaf` into the subtree below `root`, unless the
    /// subtree holds its element already, and rebalances on the way up.
    /// Gives the root of the subtree afterwards.
    pub fn insert_node(root: Box<AvlNode<T>>, leaf: Box<AvlNode<T>>) -> (new_root: Box<AvlNode<T>>)
        requires
            total_order::<T>(),
            root.wf(),
            leaf.is_leaf(),
            root.levels() + 3 <= usize::MAX,
        ensures
            Self::inserted(&*root, leaf.spec_data(), &*new_root),
        decreases root,
    {
        let mut root = root;
        let ghost before = *root;
        let ghost element = leaf.data;
        proof {
            lemma_total_order::<T>();
            before.lemma_unfold();
            leaf.lemma_unfold();
            assert(leaf.set() =~= set![element]);
            assert(leaf.levels() == 1);
            assert(leaf.wf());
        }
        if less(&leaf.data, &root.data) {
            let single = match &root.left {
                Some(node) => less(&leaf.data, &node.data),
                None => false,
            };
            let current_left = root.left.take();
            match current_left {
                None => {
                    root.left = Some(leaf);
                },
                Some(raw_left) => {
                    let new_left = Self::insert_node(raw_left, leaf);
                    root.left = Some(new_left);
                },
            }
            proof {
                let grown = *root.left.unwrap();
                root.lemma_unfold();
                grown.lemma_unfold();
                assert(Self::opt_set(root.left) =~= Self::opt_set(before.left).insert(element));
                assert forall|x: T| #[trigger] Self::opt_set(root.left).contains(x) implies key_lt(
                    x,
                    root.data,
                ) by {
                    if x != element {
                        assert(Self::opt_set(before.left).contains(x));
                    }
                }
            }
            root.update_height();
            proof {
                root.lemma_sound();
                root.lemma_unfold();
                assert(root.set() =~= before.set().insert(element));
            }
            Self::rebalance_left(root, single)
        } else if less(&root.data, &leaf.data) {
            let single = match &root.right {
                Some(node) => less(&node.data, &leaf.data),
                None => false,
            };
            let current_right = root.right.take();
            match current_right {
                None => {
                    root.right = Some(leaf);
                },
                Some(raw_right) => {
                    let new_right = Self::insert_node(raw_right, leaf);
                    root.right = Some(new_right);
                },
            }
            proof {
                let grown = *root.right.unwrap();
                root.lemma_unfold();
                grown.lemma_unfold();
                assert(Self::opt_set(root.right) =~= Self::opt_set(before.right).insert(element));
                assert forall|x: T| #[trigger] Self::opt_set(root.right).contains(x) implies key_lt(
                    root.data,
                    x,
                ) by {
                    if x != element {
                        assert(Self::opt_set(before.right).contains(x));
                    }
                }
            }
            root.update_height();
            proof {
                root.lemma_sound();
                root.lemma_unfold();
                assert(root.set() =~= before.set().insert(element));
            }
            Self::rebalance_right(root, single)
        } else {
            proof {
                assert(before.set().insert(element) =~= before.set());
            }
            root
        }
    }
}

impl<T: Ord> View for AvlTree<T> {
    type V = Set<T>;

    /// The elements of the tree.
    closed spec fn view(&self) -> Set<T> {
        AvlNode::opt_set(self.root)
    }
}

impl<T: Ord> AvlTree<T> {
    /// The invariant of the tree: it is a search tree, records the number
    /// of levels at every node, and is balanced at every node.
    pub closed spec fn wf(&self) -> bool {
        AvlNode::opt_sound(self.root) && AvlNode::opt_balanced(self.root)
    }

    /// The number of levels of the tree, 0 if it is empty.
    pub closed spec fn levels(&self) -> nat {
        AvlNode::opt_levels(self.root)
    }

    /// The root, if the tree is not empty.
    pub closed spec fn spec_root(&self) -> Option<Box<AvlNode<T>>> {
        self.root
    }

    /// An empty tree.
    pub fn new() -> (tree: AvlTree<T>)
        ensures
            tree.wf(),
            tree@ == Set::<T>::empty(),
            tree.levels() == 0,
    {
        AvlTree { root: None }
    }

    /// The root, if the tree is not empty.
    pub fn root(&self) -> (root: Option<&AvlNode<T>>)
        ensures
            root is Some <==> self.spec_root() is Some,
            root matches Some(node) ==> *node == *self.spec_root().unwrap(),
    {
        match &self.root {
            None => None,
            Some(node) => Some(&**node),
        }
    }

    /// Adds `element` to the tree unless the tree holds it already.
    pub fn insert(&mut self, element: T)
        requires
            old(self).wf(),
            total_order::<T>(),
            old(self).levels() + 3 <= usize::MAX,
        ensures
            final(self).wf(),
            final(self)@ == old(self)@.insert(element),
            old(self).levels() <= final(self).levels() <= old(self).levels() + 1,
    {
        let node = AvlNode::new(element);
        if self.root.is_none() {
            self.root = Some(Box::new(node));
            proof {
                assert(self@ =~= old(self)@.insert(element));
            }
        } else {
            let root = self.root.take().unwrap();
            let new_root = AvlNode::insert_node(root, Box::new(node));
            self.root = Some(new_root);
        }
    }
}

} // verus!
