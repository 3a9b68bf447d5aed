use vstd::prelude::*;

verus! {

/// The largest height a node records; heights stop growing there.
pub const MAX_HEIGHT: i32 = 0x7fff_fffe;

/// A node of an AVL tree: a value, two subtrees and the node's height (a
/// leaf has height 0, an empty subtree counts as -1).
pub struct TreeNode {
    pub val: i32,
    pub left: Option<Box<TreeNode>>,
    pub right: Option<Box<TreeNode>>,
    pub height: i32,
}

/// A self-balancing binary search tree of distinct values.
pub struct AVLTree {
    pub root: Option<Box<TreeNode>>,
}

/// The values held in a subtree.
pub open spec fn elems(t: Option<Box<TreeNode>>) -> Set<i32>
    decreases t,
{
    match t {
        None => Set::empty(),
        Some(n) => elems(n.left).union(elems(n.right)).insert(n.val),
    }
}

/// Every node's left values are below it and its right values above it,
/// and every recorded height lies between 0 and `MAX_HEIGHT`.
pub open spec fn ordered(t: Option<Box<TreeNode>>) -> bool
    decreases t,
{
    match t {
        None => true,
        Some(n) => {
            &&& ordered(n.left)
            &&& ordered(n.right)
            &&& forall|x: i32| elems(n.left).contains(x) ==> x < n.val
            &&& forall|x: i32| elems(n.right).contains(x) ==> x > n.val
            &&& 0 <= n.height <= MAX_HEIGHT
        },
    }
}

/// The recorded height of a subtree: -1 when it is empty.
pub open spec fn height_of(t: Option<Box<TreeNode>>) -> int {
    match t {
        None => -1,
        Some(n) => n.height as int,
    }
}

impl TreeNode {
    /// A leaf holding `val`.
    pub fn new(val: i32) -> (r: TreeNode)
        ensures
            r.val == val,
            r.left.is_none(),
            r.right.is_none(),
            r.height == 0,
    {
        TreeNode { val, left: None, right: None, height: 0 }
    }
}

impl AVLTree {
    pub open spec fn wf(&self) -> bool {
        ordered(self.root)
    }

    /// The values in the tree.
    pub open spec fn values(&self) -> Set<i32> {
        elems(self.root)
    }

    /// An empty tree.
    pub fn new() -> (r: AVLTree)
        ensures
            r.wf(),
            r.values() == Set::<i32>::empty(),
    {
        AVLTree { root: None }
    }

    /// Adds `val`; nothing changes when it is already there.
    pub fn insert(&mut self, val: i32)
        requires
            old(self).wf(),
        ensures
            final(self).wf(),
            final(self).values() == old(self).values().insert(val),
    {
        let node = self.root.take();
        self.root = AVLTree::insert_helper(node, val);
    }

    /// The subtree `node` with `val` added, rebalanced.
    fn insert_helper(node: Option<Box<TreeNode>>, val: i32) -> (r: Option<Box<TreeNode>>)
        requires
            ordered(node),
        ensures
            ordered(r),
            r.is_some(),
            elems(r) == elems(node).insert(val),
        decreases node,
    {
        proof {
            reveal_with_fuel(ordered, 2);
        }
        if node.is_none() {
            let r = Some(Box::new(TreeNode::new(val)));
            assert(elems(r) =~= elems(node).insert(val));
            return r;
        }
        let mut n = node.unwrap();
        if val < n.val {
            let ghost el = elems(n.left);
            n.left = AVLTree::insert_helper(n.left.take(), val);
            assert(elems(n.left) == el.insert(val));
        } else if val > n.val {
            let ghost er = elems(n.right);
            n.right = AVLTree::insert_helper(n.right.take(), val);
            assert(elems(n.right) == er.insert(val));
        } else {
            assert(elems(Some(n)) =~= elems(node).insert(val));
            return Some(n);
        }
        AVLTree::update_height(&mut n);
        assert(elems(Some(n)) =~= elems(node).insert(val));
        AVLTree::rebalance(n)
    }

    /// Takes `val` out; nothing changes when it is not there.
    pub fn remove(&mut self, val: i32)
        requires
            old(self).wf(),
        ensures
            final(self).wf(),
            final(self).values() == old(self).values().remove(val),
    {
        let node = self.root.take();
        self.root = AVLTree::remove_helper(node, val);
    }

    /// The smallest value of a non-empty subtree.
    fn min_val(n: &Box<TreeNode>) -> (r: i32)
        requires
            ordered(Some(*n)),
        ensures
            elems(Some(*n)).contains(r),
            forall|x: i32| elems(Some(*n)).contains(x) ==> r <= x,
        decreases *n,
    {
        proof {
            reveal_with_fuel(ordered, 2);
            reveal_with_fuel(elems, 2);
        }
        match &n.left {
            None => {
                assert forall|x: i32| elems(Some(*n)).contains(x) implies n.val <= x by {
                    if x != n.val {
                        assert(elems(n.right).contains(x));
                    }
                }
                n.val
            },
            Some(l) => {
                let m = AVLTree::min_val(l);
                assert(elems(n.left) == elems(Some(*l)));
                assert forall|x: i32| elems(Some(*n)).contains(x) implies m <= x by {
                    if elems(n.right).contains(x) {
                        assert(m < n.val);
                    }
                }
                m
            },
        }
    }

    /// The subtree `node` without `val`, rebalanced.
    fn remove_helper(node: Option<Box<TreeNode>>, val: i32) -> (r: Option<Box<TreeNode>>)
        requires
            ordered(node),
        ensures
            ordered(r),
            elems(r) == elems(node).remove(val),
        decreases node,
    {
        proof {
            reveal_with_fuel(ordered, 2);
        }
        if node.is_none() {
            assert(elems(node) =~= elems(node).remove(val));
            return None;
        }
        let mut n = node.unwrap();
        let ghost el = elems(n.left);
        let ghost er = elems(n.right);
        if val < n.val {
            n.left = AVLTree::remove_helper(n.left.take(), val);
            assert(elems(n.left) == el.remove(val));
        } else if val > n.val {
            n.right = AVLTree::remove_helper(n.right.take(), val);
            assert(elems(n.right) == er.remove(val));
        } else {
            if n.left.is_none() {
                assert(elems(n.right) =~= elems(node).remove(val));
                return n.right;
            } else if n.right.is_none() {
                assert(elems(n.left) =~= elems(node).remove(val));
                return n.left;
            } else {
                let right_min = n.right.take().unwrap();
                let min_val = AVLTree::min_val(&right_min);
                n.val = min_val;
                n.right = AVLTree::remove_helper(Some(right_min), min_val);
                assert(elems(n.right) == er.remove(min_val));
                assert forall|x: i32| el.contains(x) implies x < min_val by {
                    assert(er.contains(min_val));
                }
            }
        }
        AVLTree::update_height(&mut n);
        assert(elems(Some(n)) =~= elems(node).remove(val));
        AVLTree::rebalance(n)
    }

    /// The recorded height of a subtree, -1 when it is empty.
    fn get_height(node: &Option<Box<TreeNode>>) -> (r: i32)
        ensures
            r == height_of(*node),
    {
        match node {
            Some(n) => n.height,
            None => -1,
        }
    }

    /// Records one more than the larger height of the two subtrees.
    fn update_height(node: &mut Box<TreeNode>)
        requires
            -1 <= height_of(old(node).left) <= MAX_HEIGHT,
            -1 <= height_of(old(node).right) <= MAX_HEIGHT,
        ensures
            final(node).val == old(node).val,
            final(node).left == old(node).left,
            final(node).right == old(node).right,
            final(node).height == ({
                let m = if height_of(old(node).left) >= height_of(old(node).right) {
                    height_of(old(node).left)
                } else {
                    height_of(old(node).right)
                };
                if m >= MAX_HEIGHT { MAX_HEIGHT as int } else { m + 1 }
            }),
    {
        let left_height = AVLTree::get_height(&node.left);
        let right_height = AVLTree::get_height(&node.right);
        let m = if left_height >= right_height { left_height } else { right_height };
        node.height = if m >= MAX_HEIGHT { MAX_HEIGHT } else { m + 1 };
    }

    /// The left height minus the right height.
    fn get_balance_factor(node: &Box<TreeNode>) -> (r: i32)
        requires
            -1 <= height_of(node.left) <= MAX_HEIGHT,
            -1 <= height_of(node.right) <= MAX_HEIGHT,
        ensures
            r == height_of(node.left) - height_of(node.right),
    {
        AVLTree::get_height(&node.left) - AVLTree::get_height(&node.right)
    }

    /// Lifts the left child over `node`.
    fn right_rotate(node: Box<TreeNode>) -> (r: Box<TreeNode>)
        requires
            ordered(Some(node)),
            node.left.is_some(),
        ensures
            ordered(Some(r)),
            elems(Some(r)) == elems(Some(node)),
    {
        proof {
            reveal_with_fuel(ordered, 3);
            reveal_with_fuel(elems, 3);
        }
        let mut node = node;
        let ghost n0 = *node;
        let mut child = node.left.take().unwrap();
        let ghost c0 = *child;
        let grandchild = child.right.take();
        node.left = grandchild;
        assert(elems(Some(node)) =~= elems(c0.right).union(elems(n0.right)).insert(n0.val));
        AVLTree::update_height(&mut node);
        assert forall|x: i32| elems(c0.right).contains(x) implies x < n0.val by {
            assert(elems(n0.left).contains(x));
        }
        assert(ordered(Some(node)));
        assert forall|x: i32| elems(Some(node)).contains(x) implies x > c0.val by {
            assert(elems(n0.left).contains(c0.val));
        }
        child.right = Some(node);
        AVLTree::update_height(&mut child);
        assert(elems(Some(child)) =~= elems(Some(Box::new(n0))));
        child
    }

    /// Lifts the right child over `node`.
    fn left_rotate(node: Box<TreeNode>) -> (r: Box<TreeNode>)
        requires
            ordered(Some(node)),
            node.right.is_some(),
        ensures
            ordered(Some(r)),
            elems(Some(r)) == elems(Some(node)),
    {
        proof {
            reveal_with_fuel(ordered, 3);
            reveal_with_fuel(elems, 3);
        }
        let mut node = node;
        let ghost n0 = *node;
        let mut child = node.right.take().unwrap();
        let ghost c0 = *child;
        let grandchild = child.left.take();
        node.right = grandchild;
        assert(elems(Some(node)) =~= elems(n0.left).union(elems(c0.left)).insert(n0.val));
        AVLTree::update_height(&mut node);
        assert forall|x: i32| elems(c0.left).contains(x) implies x > n0.val by {
            assert(elems(n0.right).contains(x));
        }
        assert(ordered(Some(node)));
        assert forall|x: i32| elems(Some(node)).contains(x) implies x < c0.val by {
            assert(elems(n0.right).contains(c0.val));
        }
        child.left = Some(node);
        AVLTree::update_height(&mut child);
        assert(elems(Some(child)) =~= elems(Some(Box::new(n0))));
        child
    }

    /// Rotates `node` back into balance when one side is more than one level
    /// taller than the other.
    fn rebalance(node: Box<TreeNode>) -> (r: Option<Box<TreeNode>>)
        requires
            ordered(Some(node)),
        ensures
            r.is_some(),
            ordered(r),
            elems(r) == elems(Some(node)),
    {
        proof {
            reveal_with_fuel(ordered, 3);
            reveal_with_fuel(elems, 3);
        }
        let mut node = node;
        let balance_factor = AVLTree::get_balance_factor(&node);
        if balance_factor > 1 {
            if AVLTree::get_balance_factor(node.left.as_ref().unwrap()) < 0 {
                let ghost n0 = *node;
                let left_child = node.left.take().unwrap();
                node.left = Some(AVLTree::left_rotate(left_child));
                assert(elems(Some(node)) == elems(Some(Box::new(n0))));
            }
            return Some(AVLTree::right_rotate(node));
        }
        if balance_factor < -1 {
            if AVLTree::get_balance_factor(node.right.as_ref().unwrap()) > 0 {
                let ghost n0 = *node;
                let right_child = node.right.take().unwrap();
                node.right = Some(AVLTree::right_rotate(right_child));
                assert(elems(Some(node)) == elems(Some(Box::new(n0))));
            }
            return Some(AVLTree::left_rotate(node));
        }
        Some(node)
    }
}

} // verus!
