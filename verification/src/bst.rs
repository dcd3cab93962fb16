//! Plain binary search tree over `i64` values, boxed nodes, no balancing.
//! Duplicate values are allowed and kept in the left subtree.

use vstd::prelude::*;

verus! {

use vstd::multiset::Multiset;

pub struct Node {
    pub val: i64,
    pub lt_node: Option<Box<Node>>,
    pub rt_node: Option<Box<Node>>,
}

pub struct BST {
    pub root_node: Option<Box<Node>>,
}

/// The values a subtree holds, with multiplicity.
pub open spec fn mset_of(t: Option<Box<Node>>) -> Multiset<i64>
    decreases t,
{
    match t {
        None => Multiset::empty(),
        Some(n) => mset_of(n.lt_node).add(mset_of(n.rt_node)).insert(n.val),
    }
}

/// The search order: everything left at or below a node's value, everything
/// right at or above it.
pub open spec fn ordered(t: Option<Box<Node>>) -> bool
    decreases t,
{
    match t {
        None => true,
        Some(n) => {
            &&& (forall|x: i64| mset_of(n.lt_node).contains(x) ==> x <= n.val)
            &&& (forall|x: i64| mset_of(n.rt_node).contains(x) ==> x >= n.val)
            &&& ordered(n.lt_node)
            &&& ordered(n.rt_node)
        },
    }
}

impl Node {
    pub fn new(val: &i64) -> (n: Node)
        ensures
            n.val == *val,
            n.lt_node is None,
            n.rt_node is None,
    {
        Node { val: *val, lt_node: None, rt_node: None }
    }
}

impl BST {
    pub fn new() -> (t: Self)
        ensures
            t.root_node is None,
            mset_of(t.root_node) == Multiset::<i64>::empty(),
            ordered(t.root_node),
    {
        Self { root_node: None }
    }

    /// Recursive insert: equal values descend to the left.
    pub fn insert(&mut self, root_node: &mut Option<Box<Node>>, val: &i64)
        requires
            ordered(*old(root_node)),
        ensures
            mset_of(*final(root_node)) == mset_of(*old(root_node)).insert(*val),
            ordered(*final(root_node)),
        decreases *old(root_node),
    {
        proof {
            broadcast use vstd::multiset::group_multiset_axioms;

        }
        let ghost t0 = *root_node;
        match root_node.take() {
            None => {
                *root_node = Some(Box::new(Node::new(val)));
                proof {
                    assert(mset_of(*root_node) =~= mset_of(t0).insert(*val));
                }
            },
            Some(mut node) => {
                if *val <= node.val {
                    Self::insert(self, &mut node.lt_node, val);
                } else {
                    Self::insert(self, &mut node.rt_node, val);
                }
                *root_node = Some(node);
                proof {
                    assert(mset_of(*root_node) =~= mset_of(t0).insert(*val));
                    assert(ordered(*root_node)) by {
                        assert forall|x: i64|
                            mset_of((*root_node).unwrap().lt_node).contains(x) implies x
                            <= (*root_node).unwrap().val by {
                            if mset_of(t0.unwrap().lt_node).contains(x) {
                            } else {
                                assert(x == *val && *val <= t0.unwrap().val);
                            }
                        }
                        assert forall|x: i64|
                            mset_of((*root_node).unwrap().rt_node).contains(x) implies x
                            >= (*root_node).unwrap().val by {
                            if mset_of(t0.unwrap().rt_node).contains(x) {
                            } else {
                                assert(x == *val && *val > t0.unwrap().val);
                            }
                        }
                    }
                }
            },
        }
    }

    /// The smallest value a non-empty ordered subtree holds.
    fn find_min(&self, t: &Option<Box<Node>>) -> (m: i64)
        requires
            (*t) is Some,
            ordered(*t),
        ensures
            mset_of(*t).contains(m),
            forall|x: i64| mset_of(*t).contains(x) ==> m <= x,
        decreases *t,
    {
        proof {
            broadcast use vstd::multiset::group_multiset_axioms;

        }
        let node = t.as_ref().unwrap();
        match &node.lt_node {
            None => {
                proof {
                    assert(mset_of(node.lt_node) =~= Multiset::<i64>::empty());
                    assert forall|x: i64| mset_of(*t).contains(x) implies node.val <= x by {
                        if mset_of(node.rt_node).contains(x) {
                            assert(x >= node.val);
                        }
                    }
                }
                node.val
            },
            Some(_) => {
                let m = self.find_min(&node.lt_node);
                proof {
                    assert(m <= node.val);
                    assert forall|x: i64| mset_of(*t).contains(x) implies m <= x by {
                        if mset_of(node.rt_node).contains(x) {
                            assert(x >= node.val);
                        } else if mset_of(node.lt_node).contains(x) {
                        } else {
                            assert(x == node.val);
                        }
                    }
                }
                m
            },
        }
    }

    /// Deletes at most one node holding the value; when the matched node
    /// has exactly one child, that child's value is copied up and the
    /// child's own subtrees are discarded with it, an inherited trait of
    /// this variant. The result therefore holds a sub-multiset of the
    /// values, loses at least one occurrence of a present value, and is
    /// untouched when the value is absent.
    pub fn delete(&mut self, root_node: &mut Option<Box<Node>>, val: &i64)
        requires
            ordered(*old(root_node)),
        ensures
            ordered(*final(root_node)),
            mset_of(*final(root_node)).subset_of(mset_of(*old(root_node))),
            !mset_of(*old(root_node)).contains(*val) ==> *final(root_node) == *old(root_node),
            mset_of(*old(root_node)).contains(*val) ==> mset_of(*final(root_node)).count(*val)
                < mset_of(*old(root_node)).count(*val),
        decreases *old(root_node),
    {
        proof {
            broadcast use vstd::multiset::group_multiset_axioms;

        }
        let ghost t0 = *root_node;
        match root_node.take() {
            None => {},
            Some(mut node) => {
                if *val == node.val {
                    proof {
                        assert(mset_of(t0).contains(*val));
                    }
                    if node.lt_node.is_none() && node.rt_node.is_none() {
                        proof {
                            assert(t0.unwrap() == node);
                            assert(mset_of(t0) == mset_of(node.lt_node).add(
                                mset_of(node.rt_node),
                            ).insert(node.val));
                            assert(mset_of(t0) =~= Multiset::<i64>::empty().insert(*val));
                        }
                    } else if node.lt_node.is_none() {
                        let x = node.rt_node.take().unwrap();
                        node.val = x.val;
                        *root_node = Some(node);
                        proof {
                            assert(mset_of(t0.unwrap().rt_node).contains(
                                t0.unwrap().rt_node.unwrap().val,
                            ));
                            assert(mset_of(t0.unwrap().rt_node).contains(x.val));
                            let fin = (*root_node).unwrap();
                            assert(fin.lt_node is None && fin.rt_node is None);
                            assert(mset_of(*root_node) == mset_of(fin.lt_node).add(
                                mset_of(fin.rt_node),
                            ).insert(x.val));
                            assert(mset_of(*root_node) =~= Multiset::<i64>::empty().insert(
                                x.val,
                            ));
                            assert(mset_of(t0) == mset_of(t0.unwrap().lt_node).add(
                                mset_of(t0.unwrap().rt_node),
                            ).insert(*val));
                            assert(mset_of(t0.unwrap().lt_node) =~= Multiset::<i64>::empty());
                            if x.val == *val {
                                assert(mset_of(t0.unwrap().rt_node).count(*val) >= 1);
                            }
                        }
                    } else if node.rt_node.is_none() {
                        let x = node.lt_node.take().unwrap();
                        node.val = x.val;
                        *root_node = Some(node);
                        proof {
                            assert(mset_of(t0.unwrap().lt_node).contains(
                                t0.unwrap().lt_node.unwrap().val,
                            ));
                            assert(mset_of(t0.unwrap().lt_node).contains(x.val));
                            let fin = (*root_node).unwrap();
                            assert(fin.lt_node is None && fin.rt_node is None);
                            assert(mset_of(*root_node) == mset_of(fin.lt_node).add(
                                mset_of(fin.rt_node),
                            ).insert(x.val));
                            assert(mset_of(*root_node) =~= Multiset::<i64>::empty().insert(
                                x.val,
                            ));
                            assert(mset_of(t0) == mset_of(t0.unwrap().lt_node).add(
                                mset_of(t0.unwrap().rt_node),
                            ).insert(*val));
                            assert(mset_of(t0.unwrap().rt_node) =~= Multiset::<i64>::empty());
                            if x.val == *val {
                                assert(mset_of(t0.unwrap().lt_node).count(*val) >= 1);
                            }
                        }
                    } else {
                        let sval = self.find_min(&node.rt_node);
                        Self::delete(self, &mut node.rt_node, &sval);
                        node.val = sval;
                        *root_node = Some(node);
                        proof {
                            let fin = (*root_node).unwrap();
                            let lt0 = t0.unwrap().lt_node;
                            let rt0 = t0.unwrap().rt_node;
                            assert(ordered(*root_node)) by {
                                assert forall|x: i64| mset_of(fin.lt_node).contains(x) implies x
                                    <= sval by {
                                    assert(x <= t0.unwrap().val);
                                }
                                assert forall|x: i64| mset_of(fin.rt_node).contains(x) implies x
                                    >= sval by {
                                    assert(mset_of(rt0).contains(x));
                                }
                            }
                            assert(mset_of(*root_node) == mset_of(fin.lt_node).add(
                                mset_of(fin.rt_node),
                            ).insert(sval));
                            assert(mset_of(t0) == mset_of(lt0).add(mset_of(rt0)).insert(*val));
                            assert(mset_of(fin.rt_node).count(sval) < mset_of(rt0).count(sval));
                            assert forall|y: i64| mset_of(*root_node).count(y) <= mset_of(
                                t0,
                            ).count(y) by {
                                assert(mset_of(fin.rt_node).count(y) <= mset_of(rt0).count(y));
                            }
                            if sval != *val {
                                assert(mset_of(fin.rt_node).count(*val) <= mset_of(rt0).count(
                                    *val,
                                ));
                            }
                        }
                    }
                } else if *val < node.val {
                    Self::delete(self, &mut node.lt_node, val);
                    *root_node = Some(node);
                    proof {
                        let fin = (*root_node).unwrap();
                        let lt0 = t0.unwrap().lt_node;
                        let rt0 = t0.unwrap().rt_node;
                        assert(ordered(*root_node)) by {
                            assert forall|x: i64| mset_of(fin.lt_node).contains(x) implies x
                                <= fin.val by {
                                assert(mset_of(lt0).contains(x));
                            }
                        }
                        assert(mset_of(*root_node) == mset_of(fin.lt_node).add(
                            mset_of(rt0),
                        ).insert(t0.unwrap().val));
                        assert(mset_of(t0) == mset_of(lt0).add(mset_of(rt0)).insert(
                            t0.unwrap().val,
                        ));
                        assert(mset_of(rt0).count(*val) == 0) by {
                            if mset_of(rt0).count(*val) > 0 {
                                assert(mset_of(rt0).contains(*val));
                            }
                        }
                        assert(mset_of(t0).contains(*val) ==> mset_of(lt0).contains(*val));
                        assert(!mset_of(t0).contains(*val) ==> !mset_of(lt0).contains(*val));
                        if !mset_of(t0).contains(*val) {
                            assert(fin.lt_node == lt0);
                            assert(fin == t0.unwrap());
                        }
                        assert forall|y: i64| mset_of(*root_node).count(y) <= mset_of(t0).count(
                            y,
                        ) by {
                            assert(mset_of(fin.lt_node).count(y) <= mset_of(lt0).count(y));
                        }
                    }
                } else {
                    Self::delete(self, &mut node.rt_node, val);
                    *root_node = Some(node);
                    proof {
                        let fin = (*root_node).unwrap();
                        let lt0 = t0.unwrap().lt_node;
                        let rt0 = t0.unwrap().rt_node;
                        assert(ordered(*root_node)) by {
                            assert forall|x: i64| mset_of(fin.rt_node).contains(x) implies x
                                >= fin.val by {
                                assert(mset_of(rt0).contains(x));
                            }
                        }
                        assert(mset_of(*root_node) == mset_of(lt0).add(
                            mset_of(fin.rt_node),
                        ).insert(t0.unwrap().val));
                        assert(mset_of(t0) == mset_of(lt0).add(mset_of(rt0)).insert(
                            t0.unwrap().val,
                        ));
                        assert(mset_of(lt0).count(*val) == 0) by {
                            if mset_of(lt0).count(*val) > 0 {
                                assert(mset_of(lt0).contains(*val));
                            }
                        }
                        assert(mset_of(t0).contains(*val) ==> mset_of(rt0).contains(*val));
                        assert(!mset_of(t0).contains(*val) ==> !mset_of(rt0).contains(*val));
                        if !mset_of(t0).contains(*val) {
                            assert(fin.rt_node == rt0);
                            assert(fin == t0.unwrap());
                        }
                        assert forall|y: i64| mset_of(*root_node).count(y) <= mset_of(t0).count(
                            y,
                        ) by {
                            assert(mset_of(fin.rt_node).count(y) <= mset_of(rt0).count(y));
                        }
                    }
                }
            },
        }
    }
}

} // verus!
