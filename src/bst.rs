use vstd::prelude::*;

verus! {

/// A node of a binary search tree.
pub struct TreeNode {
    pub value: i32,
    pub left: Option<Box<TreeNode>>,
    pub right: Option<Box<TreeNode>>,
}

/// A binary search tree of distinct values, unbalanced.
pub struct BST {
    pub root: Option<Box<TreeNode>>,
}

/// The values held in a subtree.
pub open spec fn values_of(t: Option<Box<TreeNode>>) -> Set<i32>
    decreases t,
{
    match t {
        None => Set::empty(),
        Some(n) => values_of(n.left).union(values_of(n.right)).insert(n.value),
    }
}

/// Every node's left values are below it and its right values above it.
pub open spec fn search_ordered(t: Option<Box<TreeNode>>) -> bool
    decreases t,
{
    match t {
        None => true,
        Some(n) => {
            &&& search_ordered(n.left)
            &&& search_ordered(n.right)
            &&& forall|x: i32| values_of(n.left).contains(x) ==> x < n.value
            &&& forall|x: i32| values_of(n.right).contains(x) ==> x > n.value
        },
    }
}

impl TreeNode {
    /// A leaf holding `value`.
    pub fn new(value: i32) -> (r: TreeNode)
        ensures
            r.value == value,
            r.left.is_none(),
            r.right.is_none(),
    {
        TreeNode { value, left: None, right: None }
    }
}

impl BST {
    pub open spec fn wf(&self) -> bool {
        search_ordered(self.root)
    }

    pub open spec fn values(&self) -> Set<i32> {
        values_of(self.root)
    }

    /// An empty tree.
    pub fn new() -> (r: BST)
        ensures
            r.wf(),
            r.values() == Set::<i32>::empty(),
    {
        BST { root: None }
    }

    /// Adds `value` as a new leaf; nothing changes when it is already there.
    pub fn insert(&mut self, value: i32)
        requires
            old(self).wf(),
        ensures
            final(self).wf(),
            final(self).values() == old(self).values().insert(value),
    {
        let root = self.root.take();
        self.root = Some(BST::insert_into(root, value));
    }

    fn insert_into(t: Option<Box<TreeNode>>, value: i32) -> (r: Box<TreeNode>)
        requires
            search_ordered(t),
        ensures
            search_ordered(Some(r)),
            values_of(Some(r)) == values_of(t).insert(value),
        decreases t,
    {
        match t {
            None => {
                let r = Box::new(TreeNode::new(value));
                assert(values_of(Some(r)) =~= values_of(t).insert(value));
                r
            },
            Some(mut n) => {
                let ghost l0 = values_of(n.left);
                let ghost r0 = values_of(n.right);
                if value < n.value {
                    n.left = Some(BST::insert_into(n.left.take(), value));
                } else if value > n.value {
                    n.right = Some(BST::insert_into(n.right.take(), value));
                }
                assert(values_of(Some(n)) =~= values_of(t).insert(value));
                n
            },
        }
    }

    /// The node holding `value`, if any.
    pub fn search(&self, value: i32) -> (r: Option<&TreeNode>)
        requires
            self.wf(),
        ensures
            r.is_some() == self.values().contains(value),
            r.is_some() ==> r.unwrap().value == value,
    {
        let mut cur: &Option<Box<TreeNode>> = &self.root;
        while cur.is_some()
            invariant
                search_ordered(*cur),
                values_of(*cur).contains(value) == self.values().contains(value),
            decreases *cur,
        {
            let node = cur.as_ref().unwrap();
            if value < node.value {
                proof {
                    assert(!values_of(node.right).contains(value));
                }
                cur = &node.left;
            } else if value > node.value {
                proof {
                    assert(!values_of(node.left).contains(value));
                }
                cur = &node.right;
            } else {
                return Some(node);
            }
        }
        None
    }

    /// The smallest value of a non-empty subtree.
    fn min_value(n: &Box<TreeNode>) -> (r: i32)
        requires
            search_ordered(Some(*n)),
        ensures
            values_of(Some(*n)).contains(r),
            forall|x: i32| values_of(Some(*n)).contains(x) ==> r <= x,
        decreases *n,
    {
        proof {
            reveal_with_fuel(values_of, 2);
        }
        match &n.left {
            None => {
                assert forall|x: i32| values_of(Some(*n)).contains(x) implies n.value <= x by {
                    if x != n.value {
                        assert(values_of(n.right).contains(x));
                    }
                }
                n.value
            },
            Some(l) => {
                let m = BST::min_value(l);
                assert(values_of(n.left) == values_of(Some(*l)));
                assert forall|x: i32| values_of(Some(*n)).contains(x) implies m <= x by {
                    if values_of(n.right).contains(x) {
                        assert(m < n.value);
                    }
                }
                m
            },
        }
    }

    /// Takes `value` out; a node with two children takes the value of the
    /// smallest node on its right, which is removed in its place.
    pub fn remove(&mut self, value: i32)
        requires
            old(self).wf(),
        ensures
            final(self).wf(),
            final(self).values() == old(self).values().remove(value),
            !old(self).values().contains(value) ==> *final(self) == *old(self),
    {
        let root = self.root.take();
        self.root = BST::remove_from(root, value);
    }

    fn remove_from(t: Option<Box<TreeNode>>, value: i32) -> (r: Option<Box<TreeNode>>)
        requires
            search_ordered(t),
        ensures
            search_ordered(r),
            values_of(r) == values_of(t).remove(value),
            !values_of(t).contains(value) ==> r == t,
        decreases t,
    {
        match t {
            None => {
                assert(values_of(t) =~= values_of(t).remove(value));
                None
            },
            Some(mut n) => {
                let ghost l0 = values_of(n.left);
                let ghost r0 = values_of(n.right);
                if value < n.value {
                    n.left = BST::remove_from(n.left.take(), value);
                    assert(values_of(Some(n)) =~= values_of(t).remove(value));
                    Some(n)
                } else if value > n.value {
                    n.right = BST::remove_from(n.right.take(), value);
                    assert(values_of(Some(n)) =~= values_of(t).remove(value));
                    Some(n)
                } else if n.left.is_none() {
                    assert(values_of(n.right) =~= values_of(t).remove(value));
                    n.right
                } else if n.right.is_none() {
                    assert(values_of(n.left) =~= values_of(t).remove(value));
                    n.left
                } else {
                    let right = n.right.take().unwrap();
                    let next = BST::min_value(&right);
                    n.right = BST::remove_from(Some(right), next);
                    n.value = next;
                    assert forall|x: i32| l0.contains(x) implies x < next by {
                        assert(r0.contains(next));
                    }
                    assert(values_of(Some(n)) =~= values_of(t).remove(value));
                    Some(n)
                }
            },
        }
    }
}

} // verus!
