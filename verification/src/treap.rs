//! Randomized search tree over `i64` values: the search order of a binary
//! search tree combined with caller-supplied priorities, kept a max-heap on
//! priorities by rotating a higher-priority child above its parent on
//! insert. Deletion sinks the matched node by zeroing its priority and
//! rotating it down to a leaf, restoring the heap. Priorities of live nodes
//! are always at least 1; a cached height accompanies each node.

use vstd::prelude::*;

verus! {

use vstd::multiset::Multiset;

pub struct Node {
    pub val: i64,
    pub priority: usize,
    pub lt_node: Option<Box<Node>>,
    pub rt_node: Option<Box<Node>>,
    pub height: isize,
}

pub struct Treap {
    pub root_node: Option<Box<Node>>,
}

/// The values a subtree holds, with multiplicity.
pub open spec fn mset_of(t: Option<Box<Node>>) -> Multiset<i64>
    decreases t,
{
    match t {
        None => Multiset::empty(),
        Some(n) => mset_of(n.lt_node).add(mset_of(n.rt_node)).insert(n.val),
    }
}

/// How many nodes a subtree holds.
pub open spec fn size_of(t: Option<Box<Node>>) -> int
    decreases t,
{
    match t {
        None => 0,
        Some(n) => 1 + size_of(n.lt_node) + size_of(n.rt_node),
    }
}

pub open spec fn higher(a: int, b: int) -> int {
    if a >= b {
        a
    } else {
        b
    }
}

/// The true height of a subtree.
pub open spec fn height_of(t: Option<Box<Node>>) -> int
    decreases t,
{
    match t {
        None => 0,
        Some(n) => 1 + higher(height_of(n.lt_node), height_of(n.rt_node)),
    }
}

/// The search order: everything left at or below a node's value, everything
/// right at or above it.
pub open spec fn ordered(t: Option<Box<Node>>) -> bool
    decreases t,
{
    match t {
        None => true,
        Some(n) => {
            &&& (forall|x: i64| mset_of(n.lt_node).contains(x) ==> x <= n.val)
            &&& (forall|x: i64| mset_of(n.rt_node).contains(x) ==> x >= n.val)
            &&& ordered(n.lt_node)
            &&& ordered(n.rt_node)
        },
    }
}

/// Every cached height field agrees with the true height.
pub open spec fn heights_ok(t: Option<Box<Node>>) -> bool
    decreases t,
{
    match t {
        None => true,
        Some(n) => {
            &&& n.height == height_of(t)
            &&& heights_ok(n.lt_node)
            &&& heights_ok(n.rt_node)
        },
    }
}

/// Every priority is at least 1.
pub open spec fn prios_ok(t: Option<Box<Node>>) -> bool
    decreases t,
{
    match t {
        None => true,
        Some(n) => n.priority >= 1 && prios_ok(n.lt_node) && prios_ok(n.rt_node),
    }
}

/// The max-heap shape on priorities: no child's priority exceeds its
/// parent's.
pub open spec fn heap_ok(t: Option<Box<Node>>) -> bool
    decreases t,
{
    match t {
        None => true,
        Some(n) => {
            &&& (n.lt_node is Some ==> n.lt_node.unwrap().priority <= n.priority)
            &&& (n.rt_node is Some ==> n.rt_node.unwrap().priority <= n.priority)
            &&& heap_ok(n.lt_node)
            &&& heap_ok(n.rt_node)
        },
    }
}

/// Every priority in the subtree is at most the bound.
pub open spec fn prios_le(t: Option<Box<Node>>, b: int) -> bool
    decreases t,
{
    match t {
        None => true,
        Some(n) => n.priority <= b && prios_le(n.lt_node, b) && prios_le(n.rt_node, b),
    }
}

pub proof fn lemma_prios_le_mono(t: Option<Box<Node>>, a: int, b: int)
    requires
        prios_le(t, a),
        a <= b,
    ensures
        prios_le(t, b),
    decreases t,
{
    match t {
        None => {},
        Some(n) => {
            lemma_prios_le_mono(n.lt_node, a, b);
            lemma_prios_le_mono(n.rt_node, a, b);
        },
    }
}

/// In a heap every priority is bounded by the root's.
pub proof fn lemma_heap_prios(t: Option<Box<Node>>)
    requires
        heap_ok(t),
        t is Some,
    ensures
        prios_le(t, t.unwrap().priority as int),
    decreases t,
{
    let n = t.unwrap();
    if n.lt_node is Some {
        lemma_heap_prios(n.lt_node);
        lemma_prios_le_mono(n.lt_node, n.lt_node.unwrap().priority as int, n.priority as int);
    }
    if n.rt_node is Some {
        lemma_heap_prios(n.rt_node);
        lemma_prios_le_mono(n.rt_node, n.rt_node.unwrap().priority as int, n.priority as int);
    }
    assert(prios_le(n.lt_node, n.priority as int));
    assert(prios_le(n.rt_node, n.priority as int));
}

/// The priorities a subtree holds, with multiplicity.
pub open spec fn prio_mset(t: Option<Box<Node>>) -> Multiset<usize>
    decreases t,
{
    match t {
        None => Multiset::empty(),
        Some(n) => prio_mset(n.lt_node).add(prio_mset(n.rt_node)).insert(n.priority),
    }
}

/// During a deletion the sinking node's priority is zeroed; its subtrees
/// keep the heap shape, and only the root of the subtree being worked on,
/// and only when it carries the deleted value, may break it.
pub open spec fn del_ok(t: Option<Box<Node>>, val: i64) -> bool {
    match t {
        None => true,
        Some(n) => {
            &&& prios_ok(n.lt_node)
            &&& prios_ok(n.rt_node)
            &&& heap_ok(n.lt_node)
            &&& heap_ok(n.rt_node)
            &&& ((n.priority >= 1 && heap_ok(t)) || n.val == val)
        },
    }
}

/// Well-formedness of a subtree: search order, honest heights, positive
/// priorities, and the heap shape the rotations maintain.
pub open spec fn wf(t: Option<Box<Node>>) -> bool {
    ordered(t) && heights_ok(t) && prios_ok(t) && heap_ok(t)
}

/// A subtree's true height never exceeds its node count.
pub proof fn lemma_height_le_size(t: Option<Box<Node>>)
    ensures
        0 <= height_of(t) <= size_of(t),
        0 <= size_of(t),
    decreases t,
{
    match t {
        None => {},
        Some(n) => {
            lemma_height_le_size(n.lt_node);
            lemma_height_le_size(n.rt_node);
        },
    }
}

impl Node {
    pub fn new(val: &i64, priority: &usize) -> (n: Node)
        ensures
            n.val == *val,
            n.priority == *priority,
            n.lt_node is None,
            n.rt_node is None,
            n.height == 1,
    {
        Node { val: *val, priority: *priority, lt_node: None, rt_node: None, height: 1 }
    }
}

impl Treap {
    pub fn new() -> (t: Self)
        ensures
            t.root_node is None,
            mset_of(t.root_node) == Multiset::<i64>::empty(),
            wf(t.root_node),
    {
        Self { root_node: None }
    }

    /// Reads the cached heights of a node's two children, 0 where a child
    /// is missing.
    pub fn get_lt_rt_heights(&self, root_node: &Option<Box<Node>>) -> (r: (isize, isize))
        ensures
            r.0 == (match *root_node {
                None => 0,
                Some(n) => match n.lt_node {
                    None => 0,
                    Some(l) => l.height as int,
                },
            }),
            r.1 == (match *root_node {
                None => 0,
                Some(n) => match n.rt_node {
                    None => 0,
                    Some(q) => q.height as int,
                },
            }),
    {
        let mut lheight: isize = 0;
        let mut rheight: isize = 0;
        match root_node {
            Some(root) => {
                match &root.lt_node {
                    Some(x) => {
                        lheight = x.height;
                    },
                    None => {},
                }
                match &root.rt_node {
                    Some(x) => {
                        rheight = x.height;
                    },
                    None => {},
                }
            },
            None => {},
        }
        (lheight, rheight)
    }

    /// Recomputes a node's cached height from its children's.
    pub fn set_height(&mut self, root_node: &mut Option<Box<Node>>)
        requires
            match *old(root_node) {
                None => true,
                Some(n) => heights_ok(n.lt_node) && heights_ok(n.rt_node) && size_of(
                    *old(root_node),
                ) <= isize::MAX,
            },
        ensures
            (*old(root_node)) is None ==> *final(root_node) == *old(root_node),
            (*old(root_node)) is Some ==> {
                &&& (*final(root_node)) is Some
                &&& (*final(root_node)).unwrap().val == (*old(root_node)).unwrap().val
                &&& (*final(root_node)).unwrap().priority == (*old(root_node)).unwrap().priority
                &&& (*final(root_node)).unwrap().lt_node == (*old(root_node)).unwrap().lt_node
                &&& (*final(root_node)).unwrap().rt_node == (*old(root_node)).unwrap().rt_node
                &&& heights_ok(*final(root_node))
            },
            mset_of(*final(root_node)) == mset_of(*old(root_node)),
            ordered(*old(root_node)) ==> ordered(*final(root_node)),
            prios_ok(*old(root_node)) ==> prios_ok(*final(root_node)),
            heap_ok(*old(root_node)) ==> heap_ok(*final(root_node)),
            forall|b: int| prios_le(*old(root_node), b) ==> prios_le(*final(root_node), b),
            prio_mset(*final(root_node)) == prio_mset(*old(root_node)),
            size_of(*final(root_node)) == size_of(*old(root_node)),
    {
        proof {
            lemma_height_le_size(*root_node);
            if (*root_node) is Some {
                let n = (*root_node).unwrap();
                lemma_height_le_size(n.lt_node);
                lemma_height_le_size(n.rt_node);
                if n.lt_node is Some {
                    assert(n.lt_node.unwrap().height == height_of(n.lt_node));
                }
                if n.rt_node is Some {
                    assert(n.rt_node.unwrap().height == height_of(n.rt_node));
                }
            }
        }
        let lr_heights = self.get_lt_rt_heights(root_node);
        match root_node {
            Some(root) => {
                let h = if lr_heights.0 >= lr_heights.1 {
                    lr_heights.0
                } else {
                    lr_heights.1
                };
                root.height = 1 + h;
            },
            None => {},
        }
    }

    /// Rotates the node's left child up to its place; exact structural
    /// contract so priority bookkeeping can follow the two moved nodes.
    pub fn right_rotate(&mut self, root_node: &mut Option<Box<Node>>)
        requires
            (*old(root_node)) is Some,
            (*old(root_node)).unwrap().lt_node is Some,
            ordered(*old(root_node)),
            heights_ok((*old(root_node)).unwrap().lt_node),
            heights_ok((*old(root_node)).unwrap().rt_node),
            size_of(*old(root_node)) <= isize::MAX,
        ensures
            ({
                let r0 = (*old(root_node)).unwrap();
                let l0 = r0.lt_node.unwrap();
                let fin = (*final(root_node)).unwrap();
                &&& (*final(root_node)) is Some
                &&& fin.val == l0.val
                &&& fin.priority == l0.priority
                &&& fin.lt_node == l0.lt_node
                &&& fin.rt_node is Some
                &&& fin.rt_node.unwrap().val == r0.val
                &&& fin.rt_node.unwrap().priority == r0.priority
                &&& fin.rt_node.unwrap().lt_node == l0.rt_node
                &&& fin.rt_node.unwrap().rt_node == r0.rt_node
            }),
            mset_of(*final(root_node)) == mset_of(*old(root_node)),
            prio_mset(*final(root_node)) == prio_mset(*old(root_node)),
            ordered(*final(root_node)),
            heights_ok(*final(root_node)),
            size_of(*final(root_node)) == size_of(*old(root_node)),
    {
        let ghost t0 = *root_node;
        let ghost whole = mset_of(*root_node);
        let ghost pwhole = prio_mset(*root_node);
        let ghost r0 = (*root_node).unwrap();
        let ghost l0 = r0.lt_node.unwrap();
        proof {
            lemma_height_le_size(t0);
            lemma_height_le_size(l0.lt_node);
            lemma_height_le_size(l0.rt_node);
            lemma_height_le_size(r0.rt_node);
        }
        let mut root = root_node.take().unwrap();
        let mut l = root.lt_node.take().unwrap();
        root.lt_node = l.rt_node.take();
        let mut tmp: Option<Box<Node>> = Some(root);
        proof {
            assert(heights_ok(l0.rt_node));
            assert(heights_ok(r0.rt_node));
            assert(size_of(t0) == 1 + size_of(r0.lt_node) + size_of(r0.rt_node));
            assert(size_of(r0.lt_node) == 1 + size_of(l0.lt_node) + size_of(l0.rt_node));
            assert(size_of(tmp) == 1 + size_of(l0.rt_node) + size_of(r0.rt_node));
            assert(size_of(tmp) <= size_of(t0));
        }
        self.set_height(&mut tmp);
        l.rt_node = tmp;
        let mut tmp2: Option<Box<Node>> = Some(l);
        proof {
            assert(heights_ok(l0.lt_node));
            assert(size_of(tmp2) == 1 + size_of(l0.lt_node) + size_of(tmp2.unwrap().rt_node));
            assert(size_of(tmp2) == size_of(t0));
            assert(heights_ok(tmp2.unwrap().lt_node));
            assert(heights_ok(tmp2.unwrap().rt_node));
        }
        self.set_height(&mut tmp2);
        *root_node = tmp2;
        proof {
            broadcast use vstd::multiset::group_multiset_axioms;

            let fin = (*root_node).unwrap();
            let inner = fin.rt_node;
            assert(mset_of(*root_node) == mset_of(fin.lt_node).add(mset_of(fin.rt_node)).insert(
                fin.val,
            ));
            assert(mset_of(fin.rt_node) == mset_of(l0.rt_node).add(mset_of(r0.rt_node)).insert(
                r0.val,
            ));
            assert(mset_of(t0) == mset_of(r0.lt_node).add(mset_of(r0.rt_node)).insert(r0.val));
            assert(mset_of(r0.lt_node) == mset_of(l0.lt_node).add(mset_of(l0.rt_node)).insert(
                l0.val,
            ));
            assert(mset_of(*root_node) =~= whole);
            assert(prio_mset(*root_node) == prio_mset(fin.lt_node).add(
                prio_mset(fin.rt_node),
            ).insert(fin.priority));
            assert(prio_mset(fin.rt_node) == prio_mset(l0.rt_node).add(
                prio_mset(r0.rt_node),
            ).insert(r0.priority));
            assert(prio_mset(t0) == prio_mset(r0.lt_node).add(prio_mset(r0.rt_node)).insert(
                r0.priority,
            ));
            assert(prio_mset(r0.lt_node) == prio_mset(l0.lt_node).add(
                prio_mset(l0.rt_node),
            ).insert(l0.priority));
            assert(prio_mset(*root_node) =~= pwhole);
            assert(ordered(r0.lt_node));
            assert(ordered(l0.lt_node) && ordered(l0.rt_node));
            assert(ordered(r0.rt_node));
            assert(ordered(inner)) by {
                assert forall|x: i64| mset_of(inner.unwrap().lt_node).contains(x) implies x
                    <= r0.val by {
                    assert(mset_of(r0.lt_node).contains(x));
                }
                assert forall|x: i64| mset_of(inner.unwrap().rt_node).contains(x) implies x
                    >= r0.val by {}
            }
            assert(ordered(*root_node)) by {
                assert forall|x: i64| mset_of(fin.lt_node).contains(x) implies x <= fin.val by {
                    assert(mset_of(r0.lt_node).contains(x));
                }
                assert forall|x: i64| mset_of(fin.rt_node).contains(x) implies x >= fin.val by {
                    assert(mset_of(r0.lt_node).contains(l0.val));
                    if x == r0.val {
                        assert(l0.val <= r0.val);
                    } else if mset_of(l0.rt_node).contains(x) {
                        assert(mset_of(r0.lt_node).contains(x));
                    } else {
                        assert(mset_of(r0.rt_node).contains(x));
                        assert(x >= r0.val);
                        assert(l0.val <= r0.val);
                    }
                }
            }
            assert(size_of(*root_node) == size_of(t0));
        }
    }

    /// Rotates the node's right child up to its place; the mirror of
    /// `right_rotate`.
    pub fn left_rotate(&mut self, root_node: &mut Option<Box<Node>>)
        requires
            (*old(root_node)) is Some,
            (*old(root_node)).unwrap().rt_node is Some,
            ordered(*old(root_node)),
            heights_ok((*old(root_node)).unwrap().lt_node),
            heights_ok((*old(root_node)).unwrap().rt_node),
            size_of(*old(root_node)) <= isize::MAX,
        ensures
            ({
                let r0 = (*old(root_node)).unwrap();
                let q0 = r0.rt_node.unwrap();
                let fin = (*final(root_node)).unwrap();
                &&& (*final(root_node)) is Some
                &&& fin.val == q0.val
                &&& fin.priority == q0.priority
                &&& fin.rt_node == q0.rt_node
                &&& fin.lt_node is Some
                &&& fin.lt_node.unwrap().val == r0.val
                &&& fin.lt_node.unwrap().priority == r0.priority
                &&& fin.lt_node.unwrap().rt_node == q0.lt_node
                &&& fin.lt_node.unwrap().lt_node == r0.lt_node
            }),
            mset_of(*final(root_node)) == mset_of(*old(root_node)),
            prio_mset(*final(root_node)) == prio_mset(*old(root_node)),
            ordered(*final(root_node)),
            heights_ok(*final(root_node)),
            size_of(*final(root_node)) == size_of(*old(root_node)),
    {
        let ghost t0 = *root_node;
        let ghost whole = mset_of(*root_node);
        let ghost pwhole = prio_mset(*root_node);
        let ghost r0 = (*root_node).unwrap();
        let ghost q0 = r0.rt_node.unwrap();
        proof {
            lemma_height_le_size(t0);
            lemma_height_le_size(q0.lt_node);
            lemma_height_le_size(q0.rt_node);
            lemma_height_le_size(r0.lt_node);
        }
        let mut root = root_node.take().unwrap();
        let mut r = root.rt_node.take().unwrap();
        root.rt_node = r.lt_node.take();
        let mut tmp: Option<Box<Node>> = Some(root);
        proof {
            assert(heights_ok(q0.lt_node));
            assert(heights_ok(r0.lt_node));
            assert(size_of(t0) == 1 + size_of(r0.lt_node) + size_of(r0.rt_node));
            assert(size_of(r0.rt_node) == 1 + size_of(q0.lt_node) + size_of(q0.rt_node));
            assert(size_of(tmp) == 1 + size_of(r0.lt_node) + size_of(q0.lt_node));
            assert(size_of(tmp) <= size_of(t0));
        }
        self.set_height(&mut tmp);
        r.lt_node = tmp;
        let mut tmp2: Option<Box<Node>> = Some(r);
        proof {
            assert(heights_ok(q0.rt_node));
            assert(size_of(tmp2) == 1 + size_of(tmp2.unwrap().lt_node) + size_of(q0.rt_node));
            assert(size_of(tmp2) == size_of(t0));
            assert(heights_ok(tmp2.unwrap().lt_node));
            assert(heights_ok(tmp2.unwrap().rt_node));
        }
        self.set_height(&mut tmp2);
        *root_node = tmp2;
        proof {
            broadcast use vstd::multiset::group_multiset_axioms;

            let fin = (*root_node).unwrap();
            let inner = fin.lt_node;
            assert(mset_of(*root_node) == mset_of(fin.lt_node).add(mset_of(fin.rt_node)).insert(
                fin.val,
            ));
            assert(mset_of(fin.lt_node) == mset_of(r0.lt_node).add(mset_of(q0.lt_node)).insert(
                r0.val,
            ));
            assert(mset_of(t0) == mset_of(r0.lt_node).add(mset_of(r0.rt_node)).insert(r0.val));
            assert(mset_of(r0.rt_node) == mset_of(q0.lt_node).add(mset_of(q0.rt_node)).insert(
                q0.val,
            ));
            assert(mset_of(*root_node) =~= whole);
            assert(prio_mset(*root_node) == prio_mset(fin.lt_node).add(
                prio_mset(fin.rt_node),
            ).insert(fin.priority));
            assert(prio_mset(fin.lt_node) == prio_mset(r0.lt_node).add(
                prio_mset(q0.lt_node),
            ).insert(r0.priority));
            assert(prio_mset(t0) == prio_mset(r0.lt_node).add(prio_mset(r0.rt_node)).insert(
                r0.priority,
            ));
            assert(prio_mset(r0.rt_node) == prio_mset(q0.lt_node).add(
                prio_mset(q0.rt_node),
            ).insert(q0.priority));
            assert(prio_mset(*root_node) =~= pwhole);
            assert(ordered(r0.rt_node));
            assert(ordered(q0.lt_node) && ordered(q0.rt_node));
            assert(ordered(r0.lt_node));
            assert(ordered(inner)) by {
                assert forall|x: i64| mset_of(inner.unwrap().rt_node).contains(x) implies x
                    >= r0.val by {
                    assert(mset_of(r0.rt_node).contains(x));
                }
                assert forall|x: i64| mset_of(inner.unwrap().lt_node).contains(x) implies x
                    <= r0.val by {}
            }
            assert(ordered(*root_node)) by {
                assert forall|x: i64| mset_of(fin.rt_node).contains(x) implies x >= fin.val by {
                    assert(mset_of(r0.rt_node).contains(x));
                }
                assert forall|x: i64| mset_of(fin.lt_node).contains(x) implies x <= fin.val by {
                    assert(mset_of(r0.rt_node).contains(q0.val));
                    if x == r0.val {
                        assert(q0.val >= r0.val);
                    } else if mset_of(q0.lt_node).contains(x) {
                        assert(mset_of(r0.rt_node).contains(x));
                    } else {
                        assert(mset_of(r0.lt_node).contains(x));
                        assert(x <= r0.val);
                        assert(q0.val >= r0.val);
                    }
                }
            }
            assert(size_of(*root_node) == size_of(t0));
        }
    }

    /// Recursive insert: equal values descend to the left; on the way back
    /// up a child whose priority exceeds the node's is rotated above it, so
    /// the heap shape on priorities is restored at every level.
    #[verifier::rlimit(100)]
    pub fn insert(&mut self, root_node: &mut Option<Box<Node>>, val: &i64, priority: &usize)
        requires
            wf(*old(root_node)),
            *priority >= 1,
            size_of(*old(root_node)) < isize::MAX,
        ensures
            mset_of(*final(root_node)) == mset_of(*old(root_node)).insert(*val),
            prio_mset(*final(root_node)) == prio_mset(*old(root_node)).insert(*priority),
            wf(*final(root_node)),
            size_of(*final(root_node)) == size_of(*old(root_node)) + 1,
            forall|b: int|
                prios_le(*old(root_node), b) && *priority <= b ==> prios_le(
                    *final(root_node),
                    b,
                ),
            forall|b: int|
                prios_le(*old(root_node), b) && *priority > b ==> ((*final(root_node)) is Some
                    && (*final(root_node)).unwrap().priority == *priority && prios_le(
                    (*final(root_node)).unwrap().lt_node,
                    b,
                ) && prios_le((*final(root_node)).unwrap().rt_node, b)),
        decreases size_of(*old(root_node)),
    {
        proof {
            broadcast use vstd::multiset::group_multiset_axioms;

            lemma_height_le_size(*root_node);
        }
        let ghost t0 = *root_node;
        match root_node.take() {
            None => {
                *root_node = Some(Box::new(Node::new(val, priority)));
                proof {
                    assert(mset_of(*root_node) =~= mset_of(t0).insert(*val));
                    assert(prio_mset(*root_node) =~= prio_mset(t0).insert(*priority));
                }
            },
            Some(mut node) => {
                let ghost n0 = t0.unwrap();
                proof {
                    lemma_height_le_size(node.lt_node);
                    lemma_height_le_size(node.rt_node);
                    assert(wf(node.lt_node) && wf(node.rt_node));
                    // the untouched side stays below the node's priority
                    if n0.lt_node is Some {
                        lemma_heap_prios(n0.lt_node);
                        lemma_prios_le_mono(
                            n0.lt_node,
                            n0.lt_node.unwrap().priority as int,
                            n0.priority as int,
                        );
                    }
                    if n0.rt_node is Some {
                        lemma_heap_prios(n0.rt_node);
                        lemma_prios_le_mono(
                            n0.rt_node,
                            n0.rt_node.unwrap().priority as int,
                            n0.priority as int,
                        );
                    }
                    assert(prios_le(n0.lt_node, n0.priority as int));
                    assert(prios_le(n0.rt_node, n0.priority as int));
                }
                let went_left = *val <= node.val;
                if went_left {
                    self.insert(&mut node.lt_node, val, priority);
                } else {
                    self.insert(&mut node.rt_node, val, priority);
                }
                *root_node = Some(node);
                proof {
                    assert(mset_of(*root_node) =~= mset_of(t0).insert(*val));
                    assert(prio_mset(*root_node) =~= prio_mset(t0).insert(*priority));
                    assert(ordered(*root_node)) by {
                        assert forall|x: i64|
                            mset_of((*root_node).unwrap().lt_node).contains(x) implies x
                            <= (*root_node).unwrap().val by {
                            if mset_of(n0.lt_node).contains(x) {
                            } else {
                                assert(x == *val && *val <= n0.val);
                            }
                        }
                        assert forall|x: i64|
                            mset_of((*root_node).unwrap().rt_node).contains(x) implies x
                            >= (*root_node).unwrap().val by {
                            if mset_of(n0.rt_node).contains(x) {
                            } else {
                                assert(x == *val && *val > n0.val);
                            }
                        }
                    }
                    lemma_height_le_size(*root_node);
                }
                self.set_height(root_node);

                let mut flag: u8 = 0;
                let hpriority = root_node.as_ref().unwrap().priority;
                let mut best = hpriority;
                match &root_node.as_ref().unwrap().lt_node {
                    Some(x) => {
                        if x.priority > best {
                            best = x.priority;
                            flag = 1;
                        }
                    },
                    None => {},
                }
                match &root_node.as_ref().unwrap().rt_node {
                    Some(x) => {
                        if x.priority > best {
                            flag = 2;
                        }
                    },
                    None => {},
                }
                let ghost mid = *root_node;
                let ghost m0 = mid.unwrap();
                let ghost p = *priority;
                proof {
                    assert(hpriority == n0.priority);
                    assert(flag == 0 ==> (m0.lt_node is Some
                        ==> m0.lt_node.unwrap().priority <= hpriority));
                    assert(flag == 0 ==> (m0.rt_node is Some
                        ==> m0.rt_node.unwrap().priority <= hpriority));
                    assert(flag == 1 ==> m0.lt_node is Some && m0.lt_node.unwrap().priority
                        > hpriority);
                    assert(flag == 2 ==> m0.rt_node is Some && m0.rt_node.unwrap().priority
                        > hpriority);
                    if went_left {
                        assert(m0.rt_node == n0.rt_node);
                        assert(flag != 2);
                        if flag == 1 {
                            // the bubbled child's root must be the new node
                            assert(m0.lt_node.unwrap().priority == p && prios_le(
                                m0.lt_node.unwrap().lt_node,
                                n0.priority as int,
                            ) && prios_le(m0.lt_node.unwrap().rt_node, n0.priority as int)) by {
                                if p <= n0.priority {
                                    assert(prios_le(m0.lt_node, n0.priority as int));
                                }
                            }
                        }
                    } else {
                        assert(m0.lt_node == n0.lt_node);
                        assert(flag != 1);
                        if flag == 2 {
                            assert(m0.rt_node.unwrap().priority == p && prios_le(
                                m0.rt_node.unwrap().lt_node,
                                n0.priority as int,
                            ) && prios_le(m0.rt_node.unwrap().rt_node, n0.priority as int)) by {
                                if p <= n0.priority {
                                    assert(prios_le(m0.rt_node, n0.priority as int));
                                }
                            }
                        }
                    }
                }
                if flag == 1 {
                    proof {
                        lemma_height_le_size(*root_node);
                    }
                    self.right_rotate(root_node);
                    proof {
                        let l0 = m0.lt_node.unwrap();
                        let fin = (*root_node).unwrap();
                        assert(prios_ok(m0.lt_node));
                        assert(prios_ok(l0.lt_node) && prios_ok(l0.rt_node));
                        assert(prios_ok(m0.rt_node));
                        assert(prios_ok(fin.rt_node));
                        assert(prios_ok(*root_node));
                        assert(heap_ok(m0.lt_node));
                        assert(heap_ok(l0.lt_node) && heap_ok(l0.rt_node));
                        assert(heap_ok(n0.rt_node));
                        assert(heap_ok(fin.rt_node));
                        assert(heap_ok(*root_node));
                        assert forall|b: int|
                            prios_le(t0, b) && p <= b implies prios_le(*root_node, b) by {
                            assert(prios_le(n0.lt_node, b));
                            if p <= n0.priority {
                                assert(prios_le(m0.lt_node, n0.priority as int));
                            }
                            assert(prios_le(m0.lt_node, b));
                            assert(prios_le(fin.rt_node, b));
                        }
                        assert forall|b: int|
                            prios_le(t0, b) && p > b implies ((*root_node) is Some
                                && fin.priority == p && prios_le(fin.lt_node, b) && prios_le(
                                fin.rt_node,
                                b,
                            )) by {
                            assert(prios_le(n0.lt_node, b));
                            assert(m0.lt_node.unwrap().priority == p);
                            assert(prios_le(l0.lt_node, b) && prios_le(l0.rt_node, b));
                            assert(prios_le(fin.rt_node, b));
                        }
                    }
                } else if flag == 2 {
                    proof {
                        lemma_height_le_size(*root_node);
                    }
                    self.left_rotate(root_node);
                    proof {
                        let q0 = m0.rt_node.unwrap();
                        let fin = (*root_node).unwrap();
                        assert(prios_ok(m0.rt_node));
                        assert(prios_ok(q0.lt_node) && prios_ok(q0.rt_node));
                        assert(prios_ok(m0.lt_node));
                        assert(prios_ok(fin.lt_node));
                        assert(prios_ok(*root_node));
                        assert(heap_ok(m0.rt_node));
                        assert(heap_ok(q0.lt_node) && heap_ok(q0.rt_node));
                        assert(heap_ok(n0.lt_node));
                        assert(heap_ok(fin.lt_node));
                        assert(heap_ok(*root_node));
                        assert forall|b: int|
                            prios_le(t0, b) && p <= b implies prios_le(*root_node, b) by {
                            assert(prios_le(n0.rt_node, b));
                            if p <= n0.priority {
                                assert(prios_le(m0.rt_node, n0.priority as int));
                            }
                            assert(prios_le(m0.rt_node, b));
                            assert(prios_le(fin.lt_node, b));
                        }
                        assert forall|b: int|
                            prios_le(t0, b) && p > b implies ((*root_node) is Some
                                && fin.priority == p && prios_le(fin.lt_node, b) && prios_le(
                                fin.rt_node,
                                b,
                            )) by {
                            assert(prios_le(n0.rt_node, b));
                            assert(m0.rt_node.unwrap().priority == p);
                            assert(prios_le(q0.lt_node, b) && prios_le(q0.rt_node, b));
                            assert(prios_le(fin.lt_node, b));
                        }
                    }
                } else {
                    proof {
                        assert(heap_ok(mid));
                        assert forall|b: int|
                            prios_le(t0, b) && p <= b implies prios_le(mid, b) by {
                            assert(prios_le(n0.lt_node, b));
                            assert(prios_le(n0.rt_node, b));
                        }
                        assert forall|b: int|
                            prios_le(t0, b) && p > b implies false by {
                            if went_left {
                                assert(prios_le(n0.lt_node, b));
                                assert(m0.lt_node.unwrap().priority == p);
                            } else {
                                assert(prios_le(n0.rt_node, b));
                                assert(m0.rt_node.unwrap().priority == p);
                            }
                        }
                    }
                }
            },
        }
    }

    /// Deletes at most one node holding the value, by zeroing its priority
    /// and rotating it down until it is a leaf; the structure loses exactly
    /// one occurrence of a present value and is untouched otherwise.
    #[verifier::rlimit(100)]
    pub fn delete(&mut self, root_node: &mut Option<Box<Node>>, val: &i64)
        requires
            ordered(*old(root_node)),
            heights_ok(*old(root_node)),
            del_ok(*old(root_node), *val),
            size_of(*old(root_node)) <= isize::MAX,
        ensures
            ordered(*final(root_node)),
            heights_ok(*final(root_node)),
            prios_ok(*final(root_node)),
            heap_ok(*final(root_node)),
            forall|b: int| prios_le(*old(root_node), b) ==> prios_le(*final(root_node), b),
            mset_of(*old(root_node)).contains(*val) ==> mset_of(*final(root_node)) == mset_of(
                *old(root_node),
            ).remove(*val),
            !mset_of(*old(root_node)).contains(*val) ==> mset_of(*final(root_node)) == mset_of(
                *old(root_node),
            ),
            size_of(*final(root_node)) <= size_of(*old(root_node)),
        decreases size_of(*old(root_node)),
    {
        proof {
            broadcast use vstd::multiset::group_multiset_axioms;

            lemma_height_le_size(*root_node);
        }
        let ghost t0 = *root_node;
        let mut flag: u8 = 0;
        match root_node.take() {
            None => {},
            Some(mut node) => {
                proof {
                    lemma_height_le_size(node.lt_node);
                    lemma_height_le_size(node.rt_node);
                    assert(ordered(node.lt_node) && ordered(node.rt_node));
                    assert(heights_ok(node.lt_node) && heights_ok(node.rt_node));
                    assert(prios_ok(node.lt_node) && prios_ok(node.rt_node));
                    assert(heap_ok(node.lt_node) && heap_ok(node.rt_node));
                }
                if *val == node.val {
                    node.priority = 0;
                    let mut best: usize = 0;
                    match &node.lt_node {
                        Some(x) => {
                            if x.priority > best {
                                best = x.priority;
                                flag = 1;
                            }
                        },
                        None => {},
                    }
                    match &node.rt_node {
                        Some(x) => {
                            if x.priority > best {
                                flag = 2;
                            }
                        },
                        None => {},
                    }
                    if flag == 0 {
                        proof {
                            assert(node.lt_node is None) by {
                                if node.lt_node is Some {
                                    assert(node.lt_node.unwrap().priority >= 1);
                                }
                            }
                            assert(node.rt_node is None) by {
                                if node.rt_node is Some {
                                    assert(node.rt_node.unwrap().priority >= 1);
                                }
                            }
                            assert(mset_of(t0) == mset_of(node.lt_node).add(
                                mset_of(node.rt_node),
                            ).insert(*val));
                            assert(mset_of(t0) =~= Multiset::<i64>::empty().insert(*val));
                            assert(mset_of(*root_node) =~= mset_of(t0).remove(*val));
                        }
                    } else {
                        *root_node = Some(node);
                    }
                } else if *val < node.val {
                    self.delete(&mut node.lt_node, val);
                    *root_node = Some(node);
                    proof {
                        let fin = (*root_node).unwrap();
                        let lt0 = t0.unwrap().lt_node;
                        let rt0 = t0.unwrap().rt_node;
                        assert(ordered(*root_node)) by {
                            assert forall|x: i64| mset_of(fin.lt_node).contains(x) implies x
                                <= fin.val by {
                                assert(mset_of(lt0).contains(x));
                            }
                        }
                        assert(mset_of(*root_node) == mset_of(fin.lt_node).add(
                            mset_of(rt0),
                        ).insert(t0.unwrap().val));
                        assert(mset_of(t0) == mset_of(lt0).add(mset_of(rt0)).insert(
                            t0.unwrap().val,
                        ));
                        assert(mset_of(rt0).count(*val) == 0) by {
                            if mset_of(rt0).count(*val) > 0 {
                                assert(mset_of(rt0).contains(*val));
                            }
                        }
                        assert(mset_of(t0).contains(*val) ==> mset_of(lt0).contains(*val));
                        assert(!mset_of(t0).contains(*val) ==> !mset_of(lt0).contains(*val));
                        if mset_of(t0).contains(*val) {
                            assert(mset_of(*root_node) =~= mset_of(t0).remove(*val));
                        } else {
                            assert(mset_of(*root_node) =~= mset_of(t0));
                        }
                        lemma_height_le_size(*root_node);
                        // heap shape: the shrunk child stays below the node's priority
                        assert(heap_ok(t0) && t0.unwrap().priority >= 1);
                        if lt0 is Some {
                            lemma_heap_prios(lt0);
                            lemma_prios_le_mono(
                                lt0,
                                lt0.unwrap().priority as int,
                                t0.unwrap().priority as int,
                            );
                        }
                        assert(prios_le(lt0, t0.unwrap().priority as int));
                        assert(prios_le(fin.lt_node, t0.unwrap().priority as int));
                        assert(heap_ok(*root_node));
                        assert forall|b: int| prios_le(t0, b) implies prios_le(
                            *root_node,
                            b,
                        ) by {
                            assert(prios_le(lt0, b) && prios_le(rt0, b));
                            assert(prios_le(fin.lt_node, b));
                        }
                    }
                    self.set_height(root_node);
                } else {
                    self.delete(&mut node.rt_node, val);
                    *root_node = Some(node);
                    proof {
                        let fin = (*root_node).unwrap();
                        let lt0 = t0.unwrap().lt_node;
                        let rt0 = t0.unwrap().rt_node;
                        assert(ordered(*root_node)) by {
                            assert forall|x: i64| mset_of(fin.rt_node).contains(x) implies x
                                >= fin.val by {
                                assert(mset_of(rt0).contains(x));
                            }
                        }
                        assert(mset_of(*root_node) == mset_of(lt0).add(
                            mset_of(fin.rt_node),
                        ).insert(t0.unwrap().val));
                        assert(mset_of(t0) == mset_of(lt0).add(mset_of(rt0)).insert(
                            t0.unwrap().val,
                        ));
                        assert(mset_of(lt0).count(*val) == 0) by {
                            if mset_of(lt0).count(*val) > 0 {
                                assert(mset_of(lt0).contains(*val));
                            }
                        }
                        assert(mset_of(t0).contains(*val) ==> mset_of(rt0).contains(*val));
                        assert(!mset_of(t0).contains(*val) ==> !mset_of(rt0).contains(*val));
                        if mset_of(t0).contains(*val) {
                            assert(mset_of(*root_node) =~= mset_of(t0).remove(*val));
                        } else {
                            assert(mset_of(*root_node) =~= mset_of(t0));
                        }
                        lemma_height_le_size(*root_node);
                        assert(heap_ok(t0) && t0.unwrap().priority >= 1);
                        if rt0 is Some {
                            lemma_heap_prios(rt0);
                            lemma_prios_le_mono(
                                rt0,
                                rt0.unwrap().priority as int,
                                t0.unwrap().priority as int,
                            );
                        }
                        assert(prios_le(rt0, t0.unwrap().priority as int));
                        assert(prios_le(fin.rt_node, t0.unwrap().priority as int));
                        assert(heap_ok(*root_node));
                        assert forall|b: int| prios_le(t0, b) implies prios_le(
                            *root_node,
                            b,
                        ) by {
                            assert(prios_le(lt0, b) && prios_le(rt0, b));
                            assert(prios_le(fin.rt_node, b));
                        }
                    }
                    self.set_height(root_node);
                }
            },
        }

        if flag == 1 {
            proof {
                lemma_height_le_size(*root_node);
            }
            let ghost tr = *root_node;
            self.right_rotate(root_node);
            let ghost ta = *root_node;
            let mut root = root_node.take().unwrap();
            proof {
                let sub = root.rt_node;
                assert(sub.unwrap().val == *val);
                assert(del_ok(sub, *val));
                assert(mset_of(sub).contains(*val));
                assert(size_of(sub) < size_of(t0)) by {
                    assert(size_of(ta) == size_of(tr));
                    lemma_height_le_size(root.lt_node);
                }
                lemma_height_le_size(sub);
                // the promoted child outranks everything it now covers
                let c = tr.unwrap().lt_node;
                assert(c is Some && heap_ok(c) && heap_ok(tr.unwrap().rt_node));
                assert(tr.unwrap().rt_node is Some ==> tr.unwrap().rt_node.unwrap().priority
                    <= c.unwrap().priority);
                lemma_heap_prios(c);
                if tr.unwrap().rt_node is Some {
                    lemma_heap_prios(tr.unwrap().rt_node);
                    lemma_prios_le_mono(
                        tr.unwrap().rt_node,
                        tr.unwrap().rt_node.unwrap().priority as int,
                        c.unwrap().priority as int,
                    );
                }
                assert(root.priority == c.unwrap().priority);
                assert(prios_le(c.unwrap().rt_node, c.unwrap().priority as int));
                assert(prios_le(tr.unwrap().rt_node, c.unwrap().priority as int));
                assert(sub.unwrap().lt_node == c.unwrap().rt_node && sub.unwrap().rt_node
                    == tr.unwrap().rt_node);
                assert(prios_le(sub, root.priority as int));
            }
            self.delete(&mut root.rt_node, val);
            *root_node = Some(root);
            proof {
                broadcast use vstd::multiset::group_multiset_axioms;

                let fin = (*root_node).unwrap();
                let ra = ta.unwrap();
                let c = tr.unwrap().lt_node;
                assert(ordered(*root_node)) by {
                    assert forall|x: i64| mset_of(fin.rt_node).contains(x) implies x
                        >= fin.val by {
                        assert(mset_of(ra.rt_node).contains(x));
                    }
                }
                assert(mset_of(*root_node) == mset_of(ra.lt_node).add(
                    mset_of(fin.rt_node),
                ).insert(ra.val));
                assert(mset_of(ta) == mset_of(ra.lt_node).add(mset_of(ra.rt_node)).insert(
                    ra.val,
                ));
                assert(mset_of(fin.rt_node) =~= mset_of(ra.rt_node).remove(*val));
                assert(mset_of(*root_node) =~= mset_of(ta).remove(*val));
                assert(mset_of(t0).contains(*val));
                lemma_height_le_size(*root_node);
                assert(prios_le(fin.rt_node, ra.priority as int));
                assert(heap_ok(c.unwrap().lt_node));
                assert(heap_ok(*root_node));
                assert forall|b: int| prios_le(t0, b) implies prios_le(*root_node, b) by {
                    assert(b >= 0);
                    assert(prios_le(t0.unwrap().lt_node, b));
                    assert(prios_le(t0.unwrap().rt_node, b));
                    assert(prios_le(ra.rt_node, b));
                    assert(prios_le(fin.rt_node, b));
                }
            }
            self.set_height(root_node);
        } else if flag == 2 {
            proof {
                lemma_height_le_size(*root_node);
            }
            let ghost tr = *root_node;
            self.left_rotate(root_node);
            let ghost ta = *root_node;
            let mut root = root_node.take().unwrap();
            proof {
                let sub = root.lt_node;
                assert(sub.unwrap().val == *val);
                assert(del_ok(sub, *val));
                assert(mset_of(sub).contains(*val));
                assert(size_of(sub) < size_of(t0)) by {
                    assert(size_of(ta) == size_of(tr));
                    lemma_height_le_size(root.rt_node);
                }
                lemma_height_le_size(sub);
                let c = tr.unwrap().rt_node;
                assert(c is Some && heap_ok(c) && heap_ok(tr.unwrap().lt_node));
                assert(tr.unwrap().lt_node is Some ==> tr.unwrap().lt_node.unwrap().priority
                    <= c.unwrap().priority);
                lemma_heap_prios(c);
                if tr.unwrap().lt_node is Some {
                    lemma_heap_prios(tr.unwrap().lt_node);
                    lemma_prios_le_mono(
                        tr.unwrap().lt_node,
                        tr.unwrap().lt_node.unwrap().priority as int,
                        c.unwrap().priority as int,
                    );
                }
                assert(root.priority == c.unwrap().priority);
                assert(prios_le(c.unwrap().lt_node, c.unwrap().priority as int));
                assert(prios_le(tr.unwrap().lt_node, c.unwrap().priority as int));
                assert(sub.unwrap().rt_node == c.unwrap().lt_node && sub.unwrap().lt_node
                    == tr.unwrap().lt_node);
                assert(prios_le(sub, root.priority as int));
            }
            self.delete(&mut root.lt_node, val);
            *root_node = Some(root);
            proof {
                broadcast use vstd::multiset::group_multiset_axioms;

                let fin = (*root_node).unwrap();
                let ra = ta.unwrap();
                let c = tr.unwrap().rt_node;
                assert(ordered(*root_node)) by {
                    assert forall|x: i64| mset_of(fin.lt_node).contains(x) implies x
                        <= fin.val by {
                        assert(mset_of(ra.lt_node).contains(x));
                    }
                }
                assert(mset_of(*root_node) == mset_of(fin.lt_node).add(
                    mset_of(ra.rt_node),
                ).insert(ra.val));
                assert(mset_of(ta) == mset_of(ra.lt_node).add(mset_of(ra.rt_node)).insert(
                    ra.val,
                ));
                assert(mset_of(fin.lt_node) =~= mset_of(ra.lt_node).remove(*val));
                assert(mset_of(*root_node) =~= mset_of(ta).remove(*val));
                assert(mset_of(t0).contains(*val));
                lemma_height_le_size(*root_node);
                assert(prios_le(fin.lt_node, ra.priority as int));
                assert(heap_ok(c.unwrap().rt_node));
                assert(heap_ok(*root_node));
                assert forall|b: int| prios_le(t0, b) implies prios_le(*root_node, b) by {
                    assert(b >= 0);
                    assert(prios_le(t0.unwrap().lt_node, b));
                    assert(prios_le(t0.unwrap().rt_node, b));
                    assert(prios_le(ra.lt_node, b));
                    assert(prios_le(fin.lt_node, b));
                }
            }
            self.set_height(root_node);
        }
    }
}

} // verus!
