//! An unbalanced binary search tree of integers, without duplicates.
use vstd::prelude::*;

verus! {

/// One node: a value, smaller values to the left, larger to the right.
pub struct TreeNode {
    pub value: i32,
    pub left: Option<Box<TreeNode>>,
    pub right: Option<Box<TreeNode>>,
}

/// A binary search tree with a count of insertions.
pub struct BinaryTree {
    root: Option<Box<TreeNode>>,
    size: usize,
}

/// The values held in the subtree.
pub open spec fn values_in(node: Option<Box<TreeNode>>) -> Set<i32>
    decreases node,
{
    match node {
        None => Set::empty(),
        Some(n) => values_in(n.left).union(values_in(n.right)).insert(n.value),
    }
}

/// Left subtrees hold smaller values, right subtrees larger ones, throughout.
pub open spec fn ordered(node: Option<Box<TreeNode>>) -> bool
    decreases node,
{
    match node {
        None => true,
        Some(n) => {
            &&& ordered(n.left)
            &&& ordered(n.right)
            &&& forall|x: i32| #[trigger] values_in(n.left).contains(x) ==> x < n.value
            &&& forall|x: i32| #[trigger] values_in(n.right).contains(x) ==> x > n.value
        },
    }
}

/// The values of the subtree, left to right.
pub open spec fn in_order(node: Option<Box<TreeNode>>) -> Seq<i32>
    decreases node,
{
    match node {
        None => Seq::empty(),
        Some(n) => in_order(n.left) + seq![n.value] + in_order(n.right),
    }
}

/// The number of nodes on the longest path from the root down.
pub open spec fn height_of(node: Option<Box<TreeNode>>) -> nat
    decreases node,
{
    match node {
        None => 0,
        Some(n) => {
            let l = height_of(n.left);
            let r = height_of(n.right);
            1 + if l >= r { l } else { r }
        },
    }
}

/// The subtree a borrowed link points to.
pub open spec fn owned(node: Option<&Box<TreeNode>>) -> Option<Box<TreeNode>> {
    match node {
        None => None,
        Some(b) => Some(*b),
    }
}

impl TreeNode {
    /// A leaf holding `value`.
    pub fn new(value: i32) -> (r: Self)
        ensures
            r.value == value,
            r.left is None,
            r.right is None,
    {
        TreeNode { value, left: None, right: None }
    }
}

impl BinaryTree {
    pub closed spec fn wf(&self) -> bool {
        ordered(self.root)
    }

    /// The set of values in the tree.
    pub closed spec fn values(&self) -> Set<i32> {
        values_in(self.root)
    }

    /// The values of the tree in increasing order.
    pub closed spec fn sorted_values(&self) -> Seq<i32> {
        in_order(self.root)
    }

    /// The height of the tree.
    pub closed spec fn spec_height(&self) -> nat {
        height_of(self.root)
    }

    /// The number of insertions made, duplicates included.
    pub closed spec fn insertions(&self) -> nat {
        self.size as nat
    }

    /// An empty tree.
    pub fn new() -> (r: Self)
        ensures
            r.wf(),
            r.values() == Set::<i32>::empty(),
            r.insertions() == 0,
    {
        BinaryTree { root: None, size: 0 }
    }

    /// Adds `value`; a value already present is left as it is. Every call is
    /// counted by `size`.
    pub fn insert(&mut self, value: i32)
        requires
            old(self).wf(),
            old(self).insertions() < usize::MAX,
        ensures
            final(self).wf(),
            final(self).values() == old(self).values().insert(value),
            final(self).insertions() == old(self).insertions() + 1,
    {
        let root = self.root.take();
        self.root = Self::insert_recursive(root, value);
        self.size = self.size + 1;
    }

    /// The subtree `node` with `value` added.
    pub fn insert_recursive(node: Option<Box<TreeNode>>, value: i32) -> (r: Option<Box<TreeNode>>)
        requires
            ordered(node),
        ensures
            ordered(r),
            values_in(r) == values_in(node).insert(value),
        decreases node,
    {
        match node {
            None => {
                let r = Some(Box::new(TreeNode::new(value)));
                proof {
                    let leaf = r.unwrap();
                    assert(values_in(leaf.left) == Set::<i32>::empty());
                    assert(values_in(leaf.right) == Set::<i32>::empty());
                    assert(values_in(r) =~= Set::<i32>::empty().insert(value));
                }
                r
            },
            Some(mut n) => {
                let ghost left = values_in(n.left);
                let ghost right = values_in(n.right);
                if value < n.value {
                    let l = n.left.take();
                    n.left = Self::insert_recursive(l, value);
                } else if value > n.value {
                    let r = n.right.take();
                    n.right = Self::insert_recursive(r, value);
                }
                let r = Some(n);
                proof {
                    assert(values_in(r) =~= left.union(right).insert(n.value).insert(value));
                }
                r
            },
        }
    }

    /// Whether `value` is in the tree.
    pub fn search(&self, value: i32) -> (r: bool)
        requires
            self.wf(),
        ensures
            r == self.values().contains(value),
    {
        Self::search_recursive(self.root.as_ref(), value)
    }

    /// Whether `value` is in the subtree `node`.
    pub fn search_recursive(node: Option<&Box<TreeNode>>, value: i32) -> (r: bool)
        requires
            ordered(owned(node)),
        ensures
            r == values_in(owned(node)).contains(value),
        decreases owned(node),
    {
        match node {
            None => {
                assert(owned(node) is None);
                assert(values_in(owned(node)) == Set::<i32>::empty());
                false
            },
            Some(n) => {
                proof {
                    let t = owned(node);
                    assert(t == Some(*n));
                    assert(values_in(t) == values_in(n.left).union(values_in(n.right)).insert(n.value));
                    assert(ordered(t));
                }
                if value == n.value {
                    true
                } else if value < n.value {
                    let l = n.left.as_ref();
                    assert(owned(l) == n.left);
                    Self::search_recursive(l, value)
                } else {
                    let r = n.right.as_ref();
                    assert(owned(r) == n.right);
                    Self::search_recursive(r, value)
                }
            },
        }
    }

    /// The values in increasing order.
    pub fn inorder_traversal(&self) -> (r: Vec<i32>)
        ensures
            r@ == self.sorted_values(),
    {
        let mut result: Vec<i32> = Vec::new();
        Self::inorder_recursive(self.root.as_ref(), &mut result);
        proof {
            assert(Seq::<i32>::empty() + in_order(self.root) =~= in_order(self.root));
        }
        result
    }

    /// Appends the values of the subtree `node`, left to right, to `result`.
    pub fn inorder_recursive(node: Option<&Box<TreeNode>>, result: &mut Vec<i32>)
        ensures
            final(result)@ == old(result)@ + in_order(owned(node)),
        decreases owned(node),
    {
        if let Some(n) = node {
            let ghost start = result@;
            Self::inorder_recursive(n.left.as_ref(), result);
            result.push(n.value);
            Self::inorder_recursive(n.right.as_ref(), result);
            proof {
                assert(result@ =~= start + (in_order(n.left) + seq![n.value] + in_order(n.right)));
            }
        } else {
            proof {
                assert(result@ =~= old(result)@ + Seq::<i32>::empty());
            }
        }
    }

    /// The number of nodes on the longest path from the root down.
    pub fn height(&self) -> (r: usize)
        requires
            self.spec_height() <= usize::MAX,
        ensures
            r == self.spec_height(),
    {
        Self::height_recursive(self.root.as_ref())
    }

    /// The height of the subtree `node`.
    pub fn height_recursive(node: Option<&Box<TreeNode>>) -> (r: usize)
        requires
            height_of(owned(node)) <= usize::MAX,
        ensures
            r == height_of(owned(node)),
        decreases owned(node),
    {
        match node {
            None => 0,
            Some(n) => {
                let l = Self::height_recursive(n.left.as_ref());
                let r = Self::height_recursive(n.right.as_ref());
                1 + if l >= r { l } else { r }
            },
        }
    }

    /// The number of insertions made, duplicates included.
    pub fn size(&self) -> (r: usize)
        ensures
            r == self.insertions(),
    {
        self.size
    }
}

} // verus!
