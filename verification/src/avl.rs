//! Self-balancing ordered tree over `i64` values: boxed nodes carrying a
//! cached height, rebalanced by single and double rotations so that the two
//! subtrees of every node differ in height by at most one. Duplicate values
//! are allowed and kept in the left subtree.

use vstd::prelude::*;

verus! {

use vstd::multiset::Multiset;

pub struct Node {
    pub val: i64,
    pub lt_node: Option<Box<Node>>,
    pub rt_node: Option<Box<Node>>,
    pub height: isize,
}

pub struct AVLTree {
    pub root_node: Option<Box<Node>>,
}

/// The values a subtree holds, with multiplicity.
pub open spec fn mset_of(t: Option<Box<Node>>) -> Multiset<i64>
    decreases t,
{
    match t {
        None => Multiset::empty(),
        Some(n) => mset_of(n.lt_node).add(mset_of(n.rt_node)).insert(n.val),
    }
}

/// How many nodes a subtree holds.
pub open spec fn size_of(t: Option<Box<Node>>) -> int
    decreases t,
{
    match t {
        None => 0,
        Some(n) => 1 + size_of(n.lt_node) + size_of(n.rt_node),
    }
}

pub open spec fn higher(a: int, b: int) -> int {
    if a >= b {
        a
    } else {
        b
    }
}

/// The true height of a subtree.
pub open spec fn height_of(t: Option<Box<Node>>) -> int
    decreases t,
{
    match t {
        None => 0,
        Some(n) => 1 + higher(height_of(n.lt_node), height_of(n.rt_node)),
    }
}

/// A node's balance: left height minus right height, 0 for an empty tree.
pub open spec fn lean_of(t: Option<Box<Node>>) -> int {
    match t {
        None => 0,
        Some(n) => height_of(n.lt_node) - height_of(n.rt_node),
    }
}

/// The search order: everything left at or below a node's value, everything
/// right at or above it.
pub open spec fn ordered(t: Option<Box<Node>>) -> bool
    decreases t,
{
    match t {
        None => true,
        Some(n) => {
            &&& (forall|x: i64| mset_of(n.lt_node).contains(x) ==> x <= n.val)
            &&& (forall|x: i64| mset_of(n.rt_node).contains(x) ==> x >= n.val)
            &&& ordered(n.lt_node)
            &&& ordered(n.rt_node)
        },
    }
}

/// Every cached height field agrees with the true height.
pub open spec fn heights_ok(t: Option<Box<Node>>) -> bool
    decreases t,
{
    match t {
        None => true,
        Some(n) => {
            &&& n.height == height_of(t)
            &&& heights_ok(n.lt_node)
            &&& heights_ok(n.rt_node)
        },
    }
}

/// The balance bound: at every node the two child heights differ by at most
/// one.
pub open spec fn balanced(t: Option<Box<Node>>) -> bool
    decreases t,
{
    match t {
        None => true,
        Some(n) => {
            &&& -1 <= height_of(n.lt_node) - height_of(n.rt_node) <= 1
            &&& balanced(n.lt_node)
            &&& balanced(n.rt_node)
        },
    }
}

/// Well-formedness of a subtree: search order, honest height fields, and
/// the balance bound.
pub open spec fn wf(t: Option<Box<Node>>) -> bool {
    ordered(t) && heights_ok(t) && balanced(t)
}

/// The height field a child exposes, 0 for a missing child.
pub open spec fn left_field(t: Option<Box<Node>>) -> int {
    match t {
        None => 0,
        Some(n) => match n.lt_node {
            None => 0,
            Some(l) => l.height as int,
        },
    }
}

pub open spec fn right_field(t: Option<Box<Node>>) -> int {
    match t {
        None => 0,
        Some(n) => match n.rt_node {
            None => 0,
            Some(r) => r.height as int,
        },
    }
}

/// A subtree's true height never exceeds its node count, and a non-empty
/// subtree has height at least 1.
pub proof fn lemma_height_le_size(t: Option<Box<Node>>)
    ensures
        0 <= height_of(t) <= size_of(t),
        0 <= size_of(t),
        t is Some ==> height_of(t) >= 1,
    decreases t,
{
    match t {
        None => {},
        Some(n) => {
            lemma_height_le_size(n.lt_node);
            lemma_height_le_size(n.rt_node);
        },
    }
}

impl Node {
    pub fn new(val: &i64) -> (n: Node)
        ensures
            n.val == *val,
            n.lt_node is None,
            n.rt_node is None,
            n.height == 1,
    {
        Node { val: *val, lt_node: None, rt_node: None, height: 1 }
    }
}

impl AVLTree {
    pub fn new() -> (t: Self)
        ensures
            t.root_node is None,
            mset_of(t.root_node) == Multiset::<i64>::empty(),
            wf(t.root_node),
    {
        Self { root_node: None }
    }

    /// Reads the cached heights of a node's two children, 0 where a child
    /// is missing.
    pub fn get_lt_rt_heights(&self, root_node: &Option<Box<Node>>) -> (r: (isize, isize))
        ensures
            r.0 == left_field(*root_node),
            r.1 == right_field(*root_node),
    {
        let mut lheight: isize = 0;
        let mut rheight: isize = 0;
        match root_node {
            Some(root) => {
                match &root.lt_node {
                    Some(x) => {
                        lheight = x.height;
                    },
                    None => {},
                }
                match &root.rt_node {
                    Some(x) => {
                        rheight = x.height;
                    },
                    None => {},
                }
            },
            None => {},
        }
        (lheight, rheight)
    }

    /// The balance factor: left height minus right height.
    pub fn height_diff(&self, root_node: &Option<Box<Node>>) -> (d: isize)
        requires
            heights_ok(*root_node),
            size_of(*root_node) <= isize::MAX,
        ensures
            d == left_field(*root_node) - right_field(*root_node),
            d == lean_of(*root_node),
    {
        proof {
            lemma_height_le_size(*root_node);
            if (*root_node) is Some {
                let n = (*root_node).unwrap();
                lemma_height_le_size(n.lt_node);
                lemma_height_le_size(n.rt_node);
                assert(heights_ok(n.lt_node) && heights_ok(n.rt_node));
                if n.lt_node is Some {
                    assert(n.lt_node.unwrap().height == height_of(n.lt_node));
                }
                if n.rt_node is Some {
                    assert(n.rt_node.unwrap().height == height_of(n.rt_node));
                }
                assert(0 <= left_field(*root_node) <= size_of(*root_node));
                assert(0 <= right_field(*root_node) <= size_of(*root_node));
            }
        }
        let lr_heights = self.get_lt_rt_heights(root_node);
        lr_heights.0 - lr_heights.1
    }

    /// Recomputes a node's cached height from its children's.
    pub fn set_height(&mut self, root_node: &mut Option<Box<Node>>)
        requires
            match *old(root_node) {
                None => true,
                Some(n) => heights_ok(n.lt_node) && heights_ok(n.rt_node) && size_of(
                    *old(root_node),
                ) <= isize::MAX,
            },
        ensures
            (*old(root_node)) is None ==> *final(root_node) == *old(root_node),
            (*old(root_node)) is Some ==> {
                &&& (*final(root_node)) is Some
                &&& (*final(root_node)).unwrap().val == (*old(root_node)).unwrap().val
                &&& (*final(root_node)).unwrap().lt_node == (*old(root_node)).unwrap().lt_node
                &&& (*final(root_node)).unwrap().rt_node == (*old(root_node)).unwrap().rt_node
                &&& heights_ok(*final(root_node))
                &&& (*final(root_node)).unwrap().height == height_of(*final(root_node))
            },
            mset_of(*final(root_node)) == mset_of(*old(root_node)),
            ordered(*old(root_node)) ==> ordered(*final(root_node)),
            balanced(*old(root_node)) ==> balanced(*final(root_node)),
            size_of(*final(root_node)) == size_of(*old(root_node)),
            height_of(*final(root_node)) == height_of(*old(root_node)),
    {
        proof {
            lemma_height_le_size(*root_node);
            if (*root_node) is Some {
                let n = (*root_node).unwrap();
                lemma_height_le_size(n.lt_node);
                lemma_height_le_size(n.rt_node);
                assert(left_field(*root_node) == height_of(n.lt_node));
                assert(right_field(*root_node) == height_of(n.rt_node));
            }
        }
        let lr_heights = self.get_lt_rt_heights(root_node);
        match root_node {
            Some(root) => {
                let h = if lr_heights.0 >= lr_heights.1 {
                    lr_heights.0
                } else {
                    lr_heights.1
                };
                root.height = 1 + h;
            },
            None => {},
        }
    }

    /// Rotates the node's left child up to its place, with the stated
    /// rewiring, recomputing the two touched heights; an empty tree or a
    /// node without a left child is left untouched.
    pub fn right_rotate(&mut self, root_node: &mut Option<Box<Node>>)
        requires
            ordered(*old(root_node)),
            match *old(root_node) {
                None => true,
                Some(n) => heights_ok(n.lt_node) && heights_ok(n.rt_node),
            },
            size_of(*old(root_node)) <= isize::MAX,
        ensures
            mset_of(*final(root_node)) == mset_of(*old(root_node)),
            ordered(*final(root_node)),
            size_of(*final(root_node)) == size_of(*old(root_node)),
            ((*old(root_node)) is None || (*old(root_node)).unwrap().lt_node is None)
                ==> *final(root_node) == *old(root_node),
            ((*old(root_node)) is Some && (*old(root_node)).unwrap().lt_node is Some) ==> ({
                let r0 = (*old(root_node)).unwrap();
                let l0 = r0.lt_node.unwrap();
                let fin = (*final(root_node)).unwrap();
                &&& (*final(root_node)) is Some
                &&& fin.val == l0.val
                &&& fin.lt_node == l0.lt_node
                &&& fin.rt_node is Some
                &&& fin.rt_node.unwrap().val == r0.val
                &&& fin.rt_node.unwrap().lt_node == l0.rt_node
                &&& fin.rt_node.unwrap().rt_node == r0.rt_node
                &&& heights_ok(*final(root_node))
            }),
    {
        if root_node.is_none() {
            return ;
        }
        if root_node.as_ref().unwrap().lt_node.is_none() {
            return ;
        }
        let ghost t0 = *root_node;
        let ghost whole = mset_of(*root_node);
        let ghost r0 = (*root_node).unwrap();
        let ghost l0 = r0.lt_node.unwrap();
        proof {
            lemma_height_le_size(t0);
            lemma_height_le_size(l0.lt_node);
            lemma_height_le_size(l0.rt_node);
            lemma_height_le_size(r0.rt_node);
        }
        let mut root = root_node.take().unwrap();
        let mut l = root.lt_node.take().unwrap();
        root.lt_node = l.rt_node.take();
        let mut tmp: Option<Box<Node>> = Some(root);
        proof {
            assert(heights_ok(r0.lt_node));
            assert(heights_ok(l0.rt_node));
            assert(heights_ok(r0.rt_node));
            assert(size_of(t0) == 1 + size_of(r0.lt_node) + size_of(r0.rt_node));
            assert(size_of(r0.lt_node) == 1 + size_of(l0.lt_node) + size_of(l0.rt_node));
            assert(size_of(tmp) == 1 + size_of(l0.rt_node) + size_of(r0.rt_node));
            assert(size_of(tmp) <= size_of(t0));
        }
        self.set_height(&mut tmp);
        l.rt_node = tmp;
        let mut tmp2: Option<Box<Node>> = Some(l);
        proof {
            assert(heights_ok(r0.lt_node));
            assert(heights_ok(l0.lt_node));
            assert(size_of(t0) == 1 + size_of(r0.lt_node) + size_of(r0.rt_node));
            assert(size_of(r0.lt_node) == 1 + size_of(l0.lt_node) + size_of(l0.rt_node));
            assert(size_of(tmp2) == 1 + size_of(l0.lt_node) + size_of(tmp2.unwrap().rt_node));
            assert(size_of(tmp2) == size_of(t0));
            assert(heights_ok(tmp2.unwrap().lt_node));
            assert(heights_ok(tmp2.unwrap().rt_node));
        }
        self.set_height(&mut tmp2);
        *root_node = tmp2;
        proof {
            broadcast use vstd::multiset::group_multiset_axioms;

            let fin = (*root_node).unwrap();
            let inner = fin.rt_node;
            assert(mset_of(*root_node) == mset_of(fin.lt_node).add(mset_of(fin.rt_node)).insert(
                fin.val,
            ));
            assert(mset_of(fin.rt_node) == mset_of(l0.rt_node).add(mset_of(r0.rt_node)).insert(
                r0.val,
            ));
            assert(mset_of(t0) == mset_of(r0.lt_node).add(mset_of(r0.rt_node)).insert(r0.val));
            assert(mset_of(r0.lt_node) == mset_of(l0.lt_node).add(mset_of(l0.rt_node)).insert(
                l0.val,
            ));
            assert(mset_of(*root_node) =~= whole);
            // order: the rotated-down node keeps its bounds
            assert(ordered(r0.lt_node));
            assert(ordered(l0.lt_node) && ordered(l0.rt_node));
            assert(ordered(r0.rt_node));
            assert(ordered(inner)) by {
                assert forall|x: i64| mset_of(inner.unwrap().lt_node).contains(x) implies x
                    <= r0.val by {
                    assert(mset_of(r0.lt_node).contains(x));
                }
                assert forall|x: i64| mset_of(inner.unwrap().rt_node).contains(x) implies x
                    >= r0.val by {}
            }
            assert(ordered(*root_node)) by {
                assert forall|x: i64| mset_of(fin.lt_node).contains(x) implies x <= fin.val by {
                    assert(mset_of(r0.lt_node).contains(x));
                }
                assert forall|x: i64| mset_of(fin.rt_node).contains(x) implies x >= fin.val by {
                    assert(mset_of(r0.lt_node).contains(l0.val));
                    if x == r0.val {
                        assert(l0.val <= r0.val);
                    } else if mset_of(l0.rt_node).contains(x) {
                        assert(mset_of(r0.lt_node).contains(x));
                    } else {
                        assert(mset_of(r0.rt_node).contains(x));
                        assert(x >= r0.val);
                        assert(l0.val <= r0.val);
                    }
                }
            }
            assert(size_of(*root_node) == size_of(t0));
        }
    }

    /// Rotates the node's right child up to its place; the mirror of
    /// `right_rotate`.
    pub fn left_rotate(&mut self, root_node: &mut Option<Box<Node>>)
        requires
            ordered(*old(root_node)),
            match *old(root_node) {
                None => true,
                Some(n) => heights_ok(n.lt_node) && heights_ok(n.rt_node),
            },
            size_of(*old(root_node)) <= isize::MAX,
        ensures
            mset_of(*final(root_node)) == mset_of(*old(root_node)),
            ordered(*final(root_node)),
            size_of(*final(root_node)) == size_of(*old(root_node)),
            ((*old(root_node)) is None || (*old(root_node)).unwrap().rt_node is None)
                ==> *final(root_node) == *old(root_node),
            ((*old(root_node)) is Some && (*old(root_node)).unwrap().rt_node is Some) ==> ({
                let r0 = (*old(root_node)).unwrap();
                let q0 = r0.rt_node.unwrap();
                let fin = (*final(root_node)).unwrap();
                &&& (*final(root_node)) is Some
                &&& fin.val == q0.val
                &&& fin.rt_node == q0.rt_node
                &&& fin.lt_node is Some
                &&& fin.lt_node.unwrap().val == r0.val
                &&& fin.lt_node.unwrap().lt_node == r0.lt_node
                &&& fin.lt_node.unwrap().rt_node == q0.lt_node
                &&& heights_ok(*final(root_node))
            }),
    {
        if root_node.is_none() {
            return ;
        }
        if root_node.as_ref().unwrap().rt_node.is_none() {
            return ;
        }
        let ghost t0 = *root_node;
        let ghost whole = mset_of(*root_node);
        let ghost r0 = (*root_node).unwrap();
        let ghost q0 = r0.rt_node.unwrap();
        proof {
            lemma_height_le_size(t0);
            lemma_height_le_size(q0.lt_node);
            lemma_height_le_size(q0.rt_node);
            lemma_height_le_size(r0.lt_node);
        }
        let mut root = root_node.take().unwrap();
        let mut r = root.rt_node.take().unwrap();
        root.rt_node = r.lt_node.take();
        let mut tmp: Option<Box<Node>> = Some(root);
        proof {
            assert(heights_ok(r0.rt_node));
            assert(heights_ok(q0.lt_node));
            assert(heights_ok(r0.lt_node));
            assert(size_of(t0) == 1 + size_of(r0.lt_node) + size_of(r0.rt_node));
            assert(size_of(r0.rt_node) == 1 + size_of(q0.lt_node) + size_of(q0.rt_node));
            assert(size_of(tmp) == 1 + size_of(r0.lt_node) + size_of(q0.lt_node));
            assert(size_of(tmp) <= size_of(t0));
        }
        self.set_height(&mut tmp);
        r.lt_node = tmp;
        let mut tmp2: Option<Box<Node>> = Some(r);
        proof {
            assert(heights_ok(r0.rt_node));
            assert(heights_ok(q0.rt_node));
            assert(size_of(t0) == 1 + size_of(r0.lt_node) + size_of(r0.rt_node));
            assert(size_of(r0.rt_node) == 1 + size_of(q0.lt_node) + size_of(q0.rt_node));
            assert(size_of(tmp2) == 1 + size_of(tmp2.unwrap().lt_node) + size_of(q0.rt_node));
            assert(size_of(tmp2) == size_of(t0));
            assert(heights_ok(tmp2.unwrap().lt_node));
            assert(heights_ok(tmp2.unwrap().rt_node));
        }
        self.set_height(&mut tmp2);
        *root_node = tmp2;
        proof {
            broadcast use vstd::multiset::group_multiset_axioms;

            let fin = (*root_node).unwrap();
            let inner = fin.lt_node;
            assert(mset_of(*root_node) == mset_of(fin.lt_node).add(mset_of(fin.rt_node)).insert(
                fin.val,
            ));
            assert(mset_of(fin.lt_node) == mset_of(r0.lt_node).add(mset_of(q0.lt_node)).insert(
                r0.val,
            ));
            assert(mset_of(t0) == mset_of(r0.lt_node).add(mset_of(r0.rt_node)).insert(r0.val));
            assert(mset_of(r0.rt_node) == mset_of(q0.lt_node).add(mset_of(q0.rt_node)).insert(
                q0.val,
            ));
            assert(mset_of(*root_node) =~= whole);
            assert(ordered(r0.rt_node));
            assert(ordered(q0.lt_node) && ordered(q0.rt_node));
            assert(ordered(r0.lt_node));
            assert(ordered(inner)) by {
                assert forall|x: i64| mset_of(inner.unwrap().rt_node).contains(x) implies x
                    >= r0.val by {
                    assert(mset_of(r0.rt_node).contains(x));
                }
                assert forall|x: i64| mset_of(inner.unwrap().lt_node).contains(x) implies x
                    <= r0.val by {}
            }
            assert(ordered(*root_node)) by {
                assert forall|x: i64| mset_of(fin.rt_node).contains(x) implies x >= fin.val by {
                    assert(mset_of(r0.rt_node).contains(x));
                }
                assert forall|x: i64| mset_of(fin.lt_node).contains(x) implies x <= fin.val by {
                    assert(mset_of(r0.rt_node).contains(q0.val));
                    if x == r0.val {
                        assert(q0.val >= r0.val);
                    } else if mset_of(q0.lt_node).contains(x) {
                        assert(mset_of(r0.rt_node).contains(x));
                    } else {
                        assert(mset_of(r0.lt_node).contains(x));
                        assert(x <= r0.val);
                        assert(q0.val >= r0.val);
                    }
                }
            }
            assert(size_of(*root_node) == size_of(t0));
        }
    }

    /// Rebalances after an insert of `val` below this node: a node out of
    /// balance by two is rotated once, or twice when the new value went to
    /// the taller child's inner side; a node already in balance is left
    /// untouched, and a rotation brings the height back down by one.
    pub fn check_and_rotate(&mut self, root_node: &mut Option<Box<Node>>, val: &i64)
        requires
            ordered(*old(root_node)),
            heights_ok(*old(root_node)),
            size_of(*old(root_node)) <= isize::MAX,
            match *old(root_node) {
                None => true,
                Some(n) => {
                    &&& balanced(n.lt_node)
                    &&& balanced(n.rt_node)
                    &&& -2 <= lean_of(*old(root_node)) <= 2
                    &&& (lean_of(*old(root_node)) == 2 ==> ((*val <= n.lt_node.unwrap().val
                        ==> lean_of(n.lt_node) == 1) && (*val > n.lt_node.unwrap().val
                        ==> lean_of(n.lt_node) == -1)))
                    &&& (lean_of(*old(root_node)) == -2 ==> ((*val > n.rt_node.unwrap().val
                        ==> lean_of(n.rt_node) == -1) && (*val <= n.rt_node.unwrap().val
                        ==> lean_of(n.rt_node) == 1)))
                },
            },
        ensures
            mset_of(*final(root_node)) == mset_of(*old(root_node)),
            ordered(*final(root_node)),
            heights_ok(*final(root_node)),
            balanced(*final(root_node)),
            size_of(*final(root_node)) == size_of(*old(root_node)),
            -1 <= lean_of(*old(root_node)) <= 1 ==> *final(root_node) == *old(root_node),
            (lean_of(*old(root_node)) == 2 || lean_of(*old(root_node)) == -2) ==> height_of(
                *final(root_node),
            ) == height_of(*old(root_node)) - 1,
    {
        if root_node.is_none() {
            return ;
        }
        let ghost t0 = *root_node;
        let ghost n0 = t0.unwrap();
        proof {
            lemma_height_le_size(t0);
            lemma_height_le_size(n0.lt_node);
            lemma_height_le_size(n0.rt_node);
        }
        let hdiff = self.height_diff(root_node);
        if hdiff > 1 {
            let ghost l0 = n0.lt_node.unwrap();
            let ghost h = height_of(n0.rt_node);
            proof {
                assert(lean_of(t0) == 2);
                assert(height_of(n0.lt_node) == h + 2);
                assert(n0.lt_node is Some);
                lemma_height_le_size(l0.lt_node);
                lemma_height_le_size(l0.rt_node);
                assert(height_of(t0) == h + 3);
            }
            let mut root = root_node.take().unwrap();
            let x_val = root.lt_node.as_ref().unwrap().val;
            if *val <= x_val {
                proof {
                    assert(lean_of(n0.lt_node) == 1);
                    assert(height_of(l0.lt_node) == h + 1 && height_of(l0.rt_node) == h);
                }
                let mut tmp: Option<Box<Node>> = Some(root);
                self.right_rotate(&mut tmp);
                *root_node = tmp;
                proof {
                    let fin = (*root_node).unwrap();
                    assert(height_of(fin.rt_node) == h + 1);
                    assert(height_of(fin.lt_node) == h + 1);
                    assert(height_of(*root_node) == h + 2);
                    assert(balanced(*root_node)) by {
                        assert(balanced(l0.lt_node) && balanced(l0.rt_node));
                        assert(balanced(fin.rt_node));
                    }
                }
            } else {
                proof {
                    assert(lean_of(n0.lt_node) == -1);
                    assert(height_of(l0.lt_node) == h && height_of(l0.rt_node) == h + 1);
                    assert(l0.rt_node is Some);
                }
                let ghost c0 = l0.rt_node.unwrap();
                proof {
                    lemma_height_le_size(c0.lt_node);
                    lemma_height_le_size(c0.rt_node);
                    assert(higher(height_of(c0.lt_node), height_of(c0.rt_node)) == h);
                    assert(balanced(n0.lt_node));
                    assert(balanced(l0.rt_node));
                    assert(-1 <= height_of(c0.lt_node) - height_of(c0.rt_node) <= 1);
                    assert(ordered(n0.lt_node));
                    assert(heights_ok(n0.lt_node));
                    assert(heights_ok(l0.lt_node) && heights_ok(l0.rt_node));
                    assert(size_of(n0.lt_node) <= size_of(t0));
                }
                self.left_rotate(&mut root.lt_node);
                let ghost mid = root;
                let mut tmp: Option<Box<Node>> = Some(root);
                proof {
                    let ml = mid.lt_node.unwrap();
                    assert(height_of(ml.lt_node) == h + 1);
                    assert(height_of(ml.rt_node) <= h);
                    assert(height_of(mid.lt_node) == h + 2);
                    assert(ordered(tmp)) by {
                        assert forall|x: i64| mset_of(mid.lt_node).contains(x) implies x
                            <= mid.val by {
                            assert(mset_of(n0.lt_node).contains(x));
                        }
                    }
                    assert(heights_ok(mid.lt_node));
                    assert(heights_ok(mid.rt_node));
                    assert(size_of(tmp) == size_of(t0));
                }
                self.right_rotate(&mut tmp);
                *root_node = tmp;
                proof {
                    let fin = (*root_node).unwrap();
                    assert(height_of(fin.lt_node) == h + 1);
                    assert(height_of(fin.rt_node) == h + 1);
                    assert(height_of(*root_node) == h + 2);
                    assert(balanced(*root_node)) by {
                        assert(balanced(l0.lt_node));
                        assert(balanced(c0.lt_node) && balanced(c0.rt_node));
                        assert(balanced(fin.lt_node));
                        assert(balanced(fin.rt_node));
                    }
                }
            }
        } else if hdiff < -1 {
            let ghost q0 = n0.rt_node.unwrap();
            let ghost h = height_of(n0.lt_node);
            proof {
                assert(lean_of(t0) == -2);
                assert(height_of(n0.rt_node) == h + 2);
                assert(n0.rt_node is Some);
                lemma_height_le_size(q0.lt_node);
                lemma_height_le_size(q0.rt_node);
                assert(height_of(t0) == h + 3);
            }
            let mut root = root_node.take().unwrap();
            let x_val = root.rt_node.as_ref().unwrap().val;
            if *val > x_val {
                proof {
                    assert(lean_of(n0.rt_node) == -1);
                    assert(height_of(q0.lt_node) == h && height_of(q0.rt_node) == h + 1);
                }
                let mut tmp: Option<Box<Node>> = Some(root);
                self.left_rotate(&mut tmp);
                *root_node = tmp;
                proof {
                    let fin = (*root_node).unwrap();
                    assert(height_of(fin.lt_node) == h + 1);
                    assert(height_of(fin.rt_node) == h + 1);
                    assert(height_of(*root_node) == h + 2);
                    assert(balanced(*root_node)) by {
                        assert(balanced(q0.lt_node) && balanced(q0.rt_node));
                        assert(balanced(fin.lt_node));
                    }
                }
            } else {
                proof {
                    assert(lean_of(n0.rt_node) == 1);
                    assert(height_of(q0.lt_node) == h + 1 && height_of(q0.rt_node) == h);
                    assert(q0.lt_node is Some);
                }
                let ghost c0 = q0.lt_node.unwrap();
                proof {
                    lemma_height_le_size(c0.lt_node);
                    lemma_height_le_size(c0.rt_node);
                    assert(higher(height_of(c0.lt_node), height_of(c0.rt_node)) == h);
                    assert(balanced(n0.rt_node));
                    assert(balanced(q0.lt_node));
                    assert(-1 <= height_of(c0.lt_node) - height_of(c0.rt_node) <= 1);
                    assert(ordered(n0.rt_node));
                    assert(heights_ok(n0.rt_node));
                    assert(heights_ok(q0.lt_node) && heights_ok(q0.rt_node));
                    assert(size_of(n0.rt_node) <= size_of(t0));
                }
                self.right_rotate(&mut root.rt_node);
                let ghost mid = root;
                let mut tmp: Option<Box<Node>> = Some(root);
                proof {
                    let mr = mid.rt_node.unwrap();
                    assert(height_of(mr.rt_node) == h + 1);
                    assert(height_of(mr.lt_node) <= h);
                    assert(height_of(mid.rt_node) == h + 2);
                    assert(ordered(tmp)) by {
                        assert forall|x: i64| mset_of(mid.rt_node).contains(x) implies x
                            >= mid.val by {
                            assert(mset_of(n0.rt_node).contains(x));
                        }
                    }
                    assert(heights_ok(mid.lt_node));
                    assert(heights_ok(mid.rt_node));
                    assert(size_of(tmp) == size_of(t0));
                }
                self.left_rotate(&mut tmp);
                *root_node = tmp;
                proof {
                    let fin = (*root_node).unwrap();
                    assert(height_of(fin.lt_node) == h + 1);
                    assert(height_of(fin.rt_node) == h + 1);
                    assert(height_of(*root_node) == h + 2);
                    assert(balanced(*root_node)) by {
                        assert(balanced(q0.rt_node));
                        assert(balanced(c0.lt_node) && balanced(c0.rt_node));
                        assert(balanced(fin.lt_node));
                        assert(balanced(fin.rt_node));
                    }
                }
            }
        }
    }

    /// Rebalances after a deletion below this node, choosing the rotation
    /// by the taller child's own balance; a node already in balance is left
    /// untouched, and a rotation lowers the height by at most one.
    pub fn check_and_rotate_deletion(&mut self, root_node: &mut Option<Box<Node>>)
        requires
            ordered(*old(root_node)),
            heights_ok(*old(root_node)),
            size_of(*old(root_node)) <= isize::MAX,
            match *old(root_node) {
                None => true,
                Some(n) => balanced(n.lt_node) && balanced(n.rt_node) && -2 <= lean_of(
                    *old(root_node),
                ) <= 2,
            },
        ensures
            mset_of(*final(root_node)) == mset_of(*old(root_node)),
            ordered(*final(root_node)),
            heights_ok(*final(root_node)),
            balanced(*final(root_node)),
            size_of(*final(root_node)) == size_of(*old(root_node)),
            -1 <= lean_of(*old(root_node)) <= 1 ==> *final(root_node) == *old(root_node),
            height_of(*old(root_node)) - 1 <= height_of(*final(root_node)) <= height_of(
                *old(root_node),
            ),
    {
        if root_node.is_none() {
            return ;
        }
        let ghost t0 = *root_node;
        let ghost n0 = t0.unwrap();
        proof {
            lemma_height_le_size(t0);
            lemma_height_le_size(n0.lt_node);
            lemma_height_le_size(n0.rt_node);
        }
        let hdiff = self.height_diff(root_node);
        if hdiff > 1 {
            let ghost l0 = n0.lt_node.unwrap();
            let ghost h = height_of(n0.rt_node);
            proof {
                assert(lean_of(t0) == 2);
                assert(height_of(n0.lt_node) == h + 2);
                assert(n0.lt_node is Some);
                lemma_height_le_size(l0.lt_node);
                lemma_height_le_size(l0.rt_node);
                assert(height_of(t0) == h + 3);
                assert(balanced(n0.lt_node));
                assert(heights_ok(n0.lt_node));
                assert(size_of(n0.lt_node) <= size_of(t0));
            }
            let mut root = root_node.take().unwrap();
            let hdiff_lt = self.height_diff(&root.lt_node);
            if hdiff_lt >= 0 {
                proof {
                    assert(height_of(l0.lt_node) == h + 1);
                    assert(h <= height_of(l0.rt_node) <= h + 1);
                }
                let mut tmp: Option<Box<Node>> = Some(root);
                self.right_rotate(&mut tmp);
                *root_node = tmp;
                proof {
                    let fin = (*root_node).unwrap();
                    assert(height_of(fin.rt_node) == height_of(l0.rt_node) + 1);
                    assert(height_of(fin.lt_node) == h + 1);
                    assert(height_of(*root_node) == height_of(l0.rt_node) + 2);
                    assert(balanced(*root_node)) by {
                        assert(balanced(l0.lt_node) && balanced(l0.rt_node));
                        assert(balanced(fin.rt_node));
                    }
                }
            } else {
                proof {
                    assert(lean_of(n0.lt_node) == -1);
                    assert(height_of(l0.lt_node) == h && height_of(l0.rt_node) == h + 1);
                    assert(l0.rt_node is Some);
                }
                let ghost c0 = l0.rt_node.unwrap();
                proof {
                    lemma_height_le_size(c0.lt_node);
                    lemma_height_le_size(c0.rt_node);
                    assert(higher(height_of(c0.lt_node), height_of(c0.rt_node)) == h);
                    assert(balanced(l0.rt_node));
                    assert(-1 <= height_of(c0.lt_node) - height_of(c0.rt_node) <= 1);
                    assert(ordered(n0.lt_node));
                    assert(heights_ok(l0.lt_node) && heights_ok(l0.rt_node));
                }
                self.left_rotate(&mut root.lt_node);
                let ghost mid = root;
                let mut tmp: Option<Box<Node>> = Some(root);
                proof {
                    let ml = mid.lt_node.unwrap();
                    assert(height_of(ml.lt_node) == h + 1);
                    assert(height_of(ml.rt_node) <= h);
                    assert(height_of(mid.lt_node) == h + 2);
                    assert(ordered(tmp)) by {
                        assert forall|x: i64| mset_of(mid.lt_node).contains(x) implies x
                            <= mid.val by {
                            assert(mset_of(n0.lt_node).contains(x));
                        }
                    }
                    assert(heights_ok(mid.lt_node));
                    assert(heights_ok(mid.rt_node));
                    assert(size_of(tmp) == size_of(t0));
                }
                self.right_rotate(&mut tmp);
                *root_node = tmp;
                proof {
                    let fin = (*root_node).unwrap();
                    assert(height_of(fin.lt_node) == h + 1);
                    assert(height_of(fin.rt_node) == h + 1);
                    assert(height_of(*root_node) == h + 2);
                    assert(balanced(*root_node)) by {
                        assert(balanced(l0.lt_node));
                        assert(balanced(c0.lt_node) && balanced(c0.rt_node));
                        assert(balanced(fin.lt_node));
                        assert(balanced(fin.rt_node));
                    }
                }
            }
        } else if hdiff < -1 {
            let ghost q0 = n0.rt_node.unwrap();
            let ghost h = height_of(n0.lt_node);
            proof {
                assert(lean_of(t0) == -2);
                assert(height_of(n0.rt_node) == h + 2);
                assert(n0.rt_node is Some);
                lemma_height_le_size(q0.lt_node);
                lemma_height_le_size(q0.rt_node);
                assert(height_of(t0) == h + 3);
                assert(balanced(n0.rt_node));
                assert(heights_ok(n0.rt_node));
                assert(size_of(n0.rt_node) <= size_of(t0));
            }
            let mut root = root_node.take().unwrap();
            let hdiff_rt = self.height_diff(&root.rt_node);
            if hdiff_rt <= 0 {
                proof {
                    assert(-1 <= lean_of(n0.rt_node) <= 0);
                    assert(height_of(q0.rt_node) == h + 1);
                    assert(h <= height_of(q0.lt_node) <= h + 1);
                }
                let mut tmp: Option<Box<Node>> = Some(root);
                self.left_rotate(&mut tmp);
                *root_node = tmp;
                proof {
                    let fin = (*root_node).unwrap();
                    assert(height_of(fin.lt_node) == height_of(q0.lt_node) + 1);
                    assert(height_of(fin.rt_node) == h + 1);
                    assert(height_of(*root_node) == height_of(q0.lt_node) + 2);
                    assert(balanced(*root_node)) by {
                        assert(balanced(q0.lt_node) && balanced(q0.rt_node));
                        assert(balanced(fin.lt_node));
                    }
                }
            } else {
                proof {
                    assert(lean_of(n0.rt_node) == 1);
                    assert(height_of(q0.lt_node) == h + 1 && height_of(q0.rt_node) == h);
                    assert(q0.lt_node is Some);
                }
                let ghost c0 = q0.lt_node.unwrap();
                proof {
                    lemma_height_le_size(c0.lt_node);
                    lemma_height_le_size(c0.rt_node);
                    assert(higher(height_of(c0.lt_node), height_of(c0.rt_node)) == h);
                    assert(balanced(q0.lt_node));
                    assert(-1 <= height_of(c0.lt_node) - height_of(c0.rt_node) <= 1);
                    assert(ordered(n0.rt_node));
                    assert(heights_ok(q0.lt_node) && heights_ok(q0.rt_node));
                }
                self.right_rotate(&mut root.rt_node);
                let ghost mid = root;
                let mut tmp: Option<Box<Node>> = Some(root);
                proof {
                    let mr = mid.rt_node.unwrap();
                    assert(height_of(mr.rt_node) == h + 1);
                    assert(height_of(mr.lt_node) <= h);
                    assert(height_of(mid.rt_node) == h + 2);
                    assert(ordered(tmp)) by {
                        assert forall|x: i64| mset_of(mid.rt_node).contains(x) implies x
                            >= mid.val by {
                            assert(mset_of(n0.rt_node).contains(x));
                        }
                    }
                    assert(heights_ok(mid.lt_node));
                    assert(heights_ok(mid.rt_node));
                    assert(size_of(tmp) == size_of(t0));
                }
                self.left_rotate(&mut tmp);
                *root_node = tmp;
                proof {
                    let fin = (*root_node).unwrap();
                    assert(height_of(fin.lt_node) == h + 1);
                    assert(height_of(fin.rt_node) == h + 1);
                    assert(height_of(*root_node) == h + 2);
                    assert(balanced(*root_node)) by {
                        assert(balanced(q0.rt_node));
                        assert(balanced(c0.lt_node) && balanced(c0.rt_node));
                        assert(balanced(fin.lt_node));
                        assert(balanced(fin.rt_node));
                    }
                }
            }
        }
    }

    /// Recursive insert: equal values descend to the left; heights are
    /// recomputed and the subtree rebalanced on the way back up, so the
    /// result is again a balanced search tree, one value and at most one
    /// height level larger. When the height grew the root is unchanged and
    /// leans one step toward the side the value went to.
    pub fn insert(&mut self, root_node: &mut Option<Box<Node>>, val: &i64)
        requires
            wf(*old(root_node)),
            size_of(*old(root_node)) < isize::MAX,
        ensures
            mset_of(*final(root_node)) == mset_of(*old(root_node)).insert(*val),
            wf(*final(root_node)),
            size_of(*final(root_node)) == size_of(*old(root_node)) + 1,
            height_of(*old(root_node)) <= height_of(*final(root_node)) <= height_of(
                *old(root_node),
            ) + 1,
            ((*old(root_node)) is Some && height_of(*final(root_node)) == height_of(
                *old(root_node),
            ) + 1) ==> ({
                let fin = (*final(root_node)).unwrap();
                &&& (*final(root_node)) is Some
                &&& fin.val == (*old(root_node)).unwrap().val
                &&& (*val <= fin.val ==> lean_of(*final(root_node)) == 1)
                &&& (*val > fin.val ==> lean_of(*final(root_node)) == -1)
            }),
        decreases size_of(*old(root_node)),
    {
        proof {
            broadcast use vstd::multiset::group_multiset_axioms;

            lemma_height_le_size(*root_node);
        }
        let ghost t0 = *root_node;
        match root_node.take() {
            None => {
                *root_node = Some(Box::new(Node::new(val)));
                proof {
                    assert(mset_of(*root_node) =~= mset_of(t0).insert(*val));
                    assert(height_of(*root_node) == 1);
                }
            },
            Some(mut node) => {
                let ghost n0 = t0.unwrap();
                proof {
                    lemma_height_le_size(n0.lt_node);
                    lemma_height_le_size(n0.rt_node);
                    assert(ordered(n0.lt_node) && heights_ok(n0.lt_node) && balanced(
                        n0.lt_node,
                    ));
                    assert(ordered(n0.rt_node) && heights_ok(n0.rt_node) && balanced(
                        n0.rt_node,
                    ));
                }
                let went_left = *val <= node.val;
                if went_left {
                    self.insert(&mut node.lt_node, val);
                } else {
                    self.insert(&mut node.rt_node, val);
                }
                *root_node = Some(node);
                proof {
                    assert(mset_of(*root_node) =~= mset_of(t0).insert(*val));
                    assert(ordered(*root_node)) by {
                        assert forall|x: i64|
                            mset_of((*root_node).unwrap().lt_node).contains(x) implies x
                            <= (*root_node).unwrap().val by {
                            if mset_of(n0.lt_node).contains(x) {
                            } else {
                                assert(x == *val && *val <= n0.val);
                            }
                        }
                        assert forall|x: i64|
                            mset_of((*root_node).unwrap().rt_node).contains(x) implies x
                            >= (*root_node).unwrap().val by {
                            if mset_of(n0.rt_node).contains(x) {
                            } else {
                                assert(x == *val && *val > n0.val);
                            }
                        }
                    }
                    lemma_height_le_size((*root_node).unwrap().lt_node);
                    lemma_height_le_size((*root_node).unwrap().rt_node);
                }
                self.set_height(root_node);
                let ghost mid = *root_node;
                let ghost m0 = mid.unwrap();
                proof {
                    // the subtree leans at most one step further than before
                    if went_left {
                        assert(m0.rt_node == n0.rt_node);
                        assert(height_of(n0.lt_node) <= height_of(m0.lt_node) <= height_of(
                            n0.lt_node,
                        ) + 1);
                        assert(-1 <= lean_of(mid) <= 2);
                        if lean_of(mid) == 2 {
                            assert(height_of(m0.lt_node) == height_of(n0.lt_node) + 1);
                            assert(n0.lt_node is Some) by {
                                lemma_height_le_size(n0.rt_node);
                                if n0.lt_node is None {
                                    assert(height_of(m0.lt_node) - height_of(n0.rt_node) < 2);
                                }
                            }
                            assert(m0.lt_node.unwrap().val == n0.lt_node.unwrap().val);
                        }
                    } else {
                        assert(m0.lt_node == n0.lt_node);
                        assert(height_of(n0.rt_node) <= height_of(m0.rt_node) <= height_of(
                            n0.rt_node,
                        ) + 1);
                        assert(-2 <= lean_of(mid) <= 1);
                        if lean_of(mid) == -2 {
                            assert(height_of(m0.rt_node) == height_of(n0.rt_node) + 1);
                            assert(n0.rt_node is Some) by {
                                lemma_height_le_size(n0.lt_node);
                                if n0.rt_node is None {
                                    assert(height_of(m0.rt_node) - height_of(n0.lt_node) > -2);
                                }
                            }
                            assert(m0.rt_node.unwrap().val == n0.rt_node.unwrap().val);
                        }
                    }
                    assert(size_of(mid) == size_of(t0) + 1);
                }
                self.check_and_rotate(root_node, val);
                proof {
                    lemma_height_le_size(t0);
                    lemma_height_le_size(mid);
                    if -1 <= lean_of(mid) <= 1 {
                        assert(*root_node == mid);
                        assert(height_of(t0) <= height_of(mid) <= height_of(t0) + 1);
                        if height_of(*root_node) == height_of(t0) + 1 {
                            if went_left {
                                assert(height_of(m0.lt_node) == height_of(n0.lt_node) + 1
                                    && height_of(n0.lt_node) >= height_of(n0.rt_node));
                                assert(lean_of(mid) >= 1);
                                assert(lean_of(*root_node) == 1);
                            } else {
                                assert(height_of(m0.rt_node) == height_of(n0.rt_node) + 1
                                    && height_of(n0.rt_node) >= height_of(n0.lt_node));
                                assert(lean_of(mid) <= -1);
                                assert(lean_of(*root_node) == -1);
                            }
                        }
                    } else {
                        // a rotation happened; the height comes back down
                        assert(height_of(*root_node) == height_of(mid) - 1);
                        if went_left {
                            assert(lean_of(mid) == 2);
                            assert(height_of(mid) == height_of(t0) + 1) by {
                                assert(height_of(m0.lt_node) == height_of(n0.lt_node) + 1);
                                assert(height_of(n0.lt_node) == height_of(n0.rt_node) + 1);
                            }
                        } else {
                            assert(lean_of(mid) == -2);
                            assert(height_of(mid) == height_of(t0) + 1) by {
                                assert(height_of(m0.rt_node) == height_of(n0.rt_node) + 1);
                                assert(height_of(n0.rt_node) == height_of(n0.lt_node) + 1);
                            }
                        }
                        assert(height_of(*root_node) == height_of(t0));
                    }
                }
            },
        }
    }

    /// The smallest value a non-empty ordered subtree holds.
    fn find_min(&self, t: &Option<Box<Node>>) -> (m: i64)
        requires
            (*t) is Some,
            ordered(*t),
        ensures
            mset_of(*t).contains(m),
            forall|x: i64| mset_of(*t).contains(x) ==> m <= x,
        decreases *t,
    {
        proof {
            broadcast use vstd::multiset::group_multiset_axioms;

        }
        let node = t.as_ref().unwrap();
        match &node.lt_node {
            None => {
                proof {
                    assert(mset_of(node.lt_node) =~= Multiset::<i64>::empty());
                    assert forall|x: i64| mset_of(*t).contains(x) implies node.val <= x by {
                        if mset_of(node.rt_node).contains(x) {
                            assert(x >= node.val);
                        }
                    }
                }
                node.val
            },
            Some(_) => {
                let m = self.find_min(&node.lt_node);
                proof {
                    assert(m <= node.val);
                    assert forall|x: i64| mset_of(*t).contains(x) implies m <= x by {
                        if mset_of(node.rt_node).contains(x) {
                            assert(x >= node.val);
                        } else if mset_of(node.lt_node).contains(x) {
                        } else {
                            assert(x == node.val);
                        }
                    }
                }
                m
            },
        }
    }

    /// Deletes exactly one node holding the value when it is present, and
    /// touches nothing when it is absent; heights are recomputed and the
    /// subtree rebalanced on the way back up, so the result is again a
    /// balanced search tree, at most one height level smaller.
    #[verifier::rlimit(100)]
    pub fn delete(&mut self, root_node: &mut Option<Box<Node>>, val: &i64)
        requires
            wf(*old(root_node)),
            size_of(*old(root_node)) <= isize::MAX,
        ensures
            wf(*final(root_node)),
            !mset_of(*old(root_node)).contains(*val) ==> *final(root_node) == *old(root_node),
            mset_of(*old(root_node)).contains(*val) ==> mset_of(*final(root_node)) == mset_of(
                *old(root_node),
            ).remove(*val),
            mset_of(*old(root_node)).contains(*val) ==> size_of(*final(root_node)) == size_of(
                *old(root_node),
            ) - 1,
            height_of(*old(root_node)) - 1 <= height_of(*final(root_node)) <= height_of(
                *old(root_node),
            ),
        decreases size_of(*old(root_node)),
    {
        proof {
            broadcast use vstd::multiset::group_multiset_axioms;

            lemma_height_le_size(*root_node);
        }
        let ghost t0 = *root_node;
        match root_node.take() {
            None => {
                proof {
                    assert(mset_of(t0) =~= Multiset::<i64>::empty());
                }
            },
            Some(mut node) => {
                let ghost n0 = t0.unwrap();
                proof {
                    lemma_height_le_size(n0.lt_node);
                    lemma_height_le_size(n0.rt_node);
                    assert(ordered(n0.lt_node) && heights_ok(n0.lt_node) && balanced(
                        n0.lt_node,
                    ));
                    assert(ordered(n0.rt_node) && heights_ok(n0.rt_node) && balanced(
                        n0.rt_node,
                    ));
                }
                if *val == node.val {
                    proof {
                        assert(mset_of(t0).contains(*val));
                    }
                    if node.lt_node.is_none() && node.rt_node.is_none() {
                        proof {
                            assert(t0.unwrap() == node);
                            assert(mset_of(t0) == mset_of(node.lt_node).add(
                                mset_of(node.rt_node),
                            ).insert(node.val));
                            assert(mset_of(t0) =~= Multiset::<i64>::empty().insert(*val));
                            assert(mset_of(*root_node) =~= mset_of(t0).remove(*val));
                            assert(height_of(t0) == 1);
                        }
                    } else if node.lt_node.is_none() {
                        // in a balanced tree a lone child is a leaf
                        let x = node.rt_node.take().unwrap();
                        node.val = x.val;
                        *root_node = Some(node);
                        proof {
                            let x0 = n0.rt_node.unwrap();
                            assert(height_of(n0.rt_node) == 1) by {
                                lemma_height_le_size(n0.rt_node);
                                assert(-1 <= 0 - height_of(n0.rt_node) <= 1);
                            }
                            assert(x0.lt_node is None && x0.rt_node is None) by {
                                lemma_height_le_size(x0.lt_node);
                                lemma_height_le_size(x0.rt_node);
                            }
                            assert(mset_of(n0.rt_node) == mset_of(x0.lt_node).add(
                                mset_of(x0.rt_node),
                            ).insert(x0.val));
                            assert(mset_of(n0.rt_node) =~= Multiset::<i64>::empty().insert(
                                x0.val,
                            ));
                            let fin = (*root_node).unwrap();
                            assert(fin.lt_node is None && fin.rt_node is None);
                            assert(mset_of(*root_node) =~= mset_of(t0).remove(*val));
                            assert(height_of(*root_node) == 1 && height_of(t0) == 2);
                        }
                    } else if node.rt_node.is_none() {
                        let x = node.lt_node.take().unwrap();
                        node.val = x.val;
                        *root_node = Some(node);
                        proof {
                            let x0 = n0.lt_node.unwrap();
                            assert(height_of(n0.lt_node) == 1) by {
                                lemma_height_le_size(n0.lt_node);
                                assert(-1 <= height_of(n0.lt_node) - 0 <= 1);
                            }
                            assert(x0.lt_node is None && x0.rt_node is None) by {
                                lemma_height_le_size(x0.lt_node);
                                lemma_height_le_size(x0.rt_node);
                            }
                            assert(mset_of(n0.lt_node) == mset_of(x0.lt_node).add(
                                mset_of(x0.rt_node),
                            ).insert(x0.val));
                            assert(mset_of(n0.lt_node) =~= Multiset::<i64>::empty().insert(
                                x0.val,
                            ));
                            let fin = (*root_node).unwrap();
                            assert(fin.lt_node is None && fin.rt_node is None);
                            assert(mset_of(*root_node) =~= mset_of(t0).remove(*val));
                            assert(height_of(*root_node) == 1 && height_of(t0) == 2);
                        }
                    } else {
                        let sval = self.find_min(&node.rt_node);
                        proof {
                            assert(size_of(n0.rt_node) < size_of(t0));
                        }
                        self.delete(&mut node.rt_node, &sval);
                        node.val = sval;
                        *root_node = Some(node);
                        proof {
                            let fin = (*root_node).unwrap();
                            assert(mset_of(n0.rt_node).contains(sval));
                            assert(ordered(*root_node)) by {
                                assert forall|x: i64| mset_of(fin.lt_node).contains(x) implies x
                                    <= sval by {
                                    assert(x <= n0.val);
                                }
                                assert forall|x: i64| mset_of(fin.rt_node).contains(x) implies x
                                    >= sval by {
                                    assert(mset_of(n0.rt_node).contains(x));
                                }
                            }
                            assert(mset_of(*root_node) == mset_of(n0.lt_node).add(
                                mset_of(fin.rt_node),
                            ).insert(sval));
                            assert(mset_of(fin.rt_node) == mset_of(n0.rt_node).remove(sval));
                            assert(mset_of(t0) == mset_of(n0.lt_node).add(
                                mset_of(n0.rt_node),
                            ).insert(*val));
                            assert(mset_of(*root_node) =~= mset_of(t0).remove(*val));
                        }
                    }
                } else if *val < node.val {
                    proof {
                        assert(size_of(n0.lt_node) < size_of(t0));
                    }
                    self.delete(&mut node.lt_node, val);
                    *root_node = Some(node);
                    proof {
                        let fin = (*root_node).unwrap();
                        assert(ordered(*root_node)) by {
                            assert forall|x: i64| mset_of(fin.lt_node).contains(x) implies x
                                <= fin.val by {
                                assert(mset_of(n0.lt_node).contains(x));
                            }
                        }
                        assert(mset_of(n0.rt_node).count(*val) == 0) by {
                            if mset_of(n0.rt_node).count(*val) > 0 {
                                assert(mset_of(n0.rt_node).contains(*val));
                            }
                        }
                        assert(mset_of(t0).contains(*val) ==> mset_of(n0.lt_node).contains(
                            *val,
                        ));
                        assert(!mset_of(t0).contains(*val) ==> !mset_of(n0.lt_node).contains(
                            *val,
                        ));
                        if !mset_of(t0).contains(*val) {
                            assert(fin.lt_node == n0.lt_node);
                            assert(fin == n0);
                        } else {
                            assert(mset_of(*root_node) =~= mset_of(t0).remove(*val));
                        }
                    }
                } else {
                    proof {
                        assert(size_of(n0.rt_node) < size_of(t0));
                    }
                    self.delete(&mut node.rt_node, val);
                    *root_node = Some(node);
                    proof {
                        let fin = (*root_node).unwrap();
                        assert(ordered(*root_node)) by {
                            assert forall|x: i64| mset_of(fin.rt_node).contains(x) implies x
                                >= fin.val by {
                                assert(mset_of(n0.rt_node).contains(x));
                            }
                        }
                        assert(mset_of(n0.lt_node).count(*val) == 0) by {
                            if mset_of(n0.lt_node).count(*val) > 0 {
                                assert(mset_of(n0.lt_node).contains(*val));
                            }
                        }
                        assert(mset_of(t0).contains(*val) ==> mset_of(n0.rt_node).contains(
                            *val,
                        ));
                        assert(!mset_of(t0).contains(*val) ==> !mset_of(n0.rt_node).contains(
                            *val,
                        ));
                        if !mset_of(t0).contains(*val) {
                            assert(fin.rt_node == n0.rt_node);
                            assert(fin == n0);
                        } else {
                            assert(mset_of(*root_node) =~= mset_of(t0).remove(*val));
                        }
                    }
                }
            },
        }
        let ghost tm = *root_node;
        proof {
            lemma_height_le_size(t0);
            lemma_height_le_size(tm);
            if tm is Some {
                let m0 = tm.unwrap();
                lemma_height_le_size(m0.lt_node);
                lemma_height_le_size(m0.rt_node);
            }
            // shared facts the per-branch reasoning established
            assert(ordered(tm));
            assert(size_of(tm) <= size_of(t0));
            assert(tm is Some ==> heights_ok(tm.unwrap().lt_node) && heights_ok(
                tm.unwrap().rt_node,
            ) && balanced(tm.unwrap().lt_node) && balanced(tm.unwrap().rt_node));
            assert(-2 <= lean_of(tm) <= 2);
            assert(height_of(t0) - 1 <= height_of(tm) <= height_of(t0));
            assert((lean_of(tm) == 2 || lean_of(tm) == -2) ==> height_of(tm) == height_of(t0));
        }
        self.set_height(root_node);
        proof {
            if !mset_of(t0).contains(*val) {
                if t0 is Some {
                    assert((*root_node).unwrap() == t0.unwrap());
                }
                assert(*root_node == t0);
            }
        }
        self.check_and_rotate_deletion(root_node);
        proof {
            if !mset_of(t0).contains(*val) {
                assert(-1 <= lean_of(t0) <= 1);
            }
        }
    }
}

} // verus!
