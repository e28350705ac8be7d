//! The arena-indexed binary search tree.
//!
//! `ArenaTree` owns a flat, append-only store of `Node`s; every relationship
//! between nodes is a plain index into that store.  The ghost field carries
//! the `Shape` of the reachable part of the tree, and `rep` ties the store to
//! that shape: links mirror the shape's edges, and each child's `parent`
//! field points back at the node it hangs from.

use vstd::prelude::*;
use crate::shape::Shape;
use crate::shape::{left_of, right_of, val_of, root_of};
use crate::shape::{t_size, vals, idxs, ordered, distinct_idxs};
use crate::shape::{insert_t, idx_of, min_val, min_idx, drop_min, delete_t, locate, sub_at, build};
use crate::shape::{lemma_insert_props, lemma_min_props, lemma_delete_props, lemma_build_props};
use crate::traverse::{Traversal, dfs, bfs_vals, bfs_next, size_sum, visit};
use crate::traverse::{lemma_size_sum_push, lemma_bfs_in_set, lemma_dfs_in_vals};

verus! {

/// One tree entry: its own slot index, its value, and the slot indices of its
/// parent and children (`None` means "no such relationship").
#[derive(Clone, Copy)]
pub struct Node {
    pub idx: usize,
    pub val: i64,
    pub parent: Option<usize>,
    pub left: Option<usize>,
    pub right: Option<usize>,
}

/// The arena-indexed tree: a backing store of nodes and the index of the
/// current root (meaningful only while the store is non-empty).
pub struct ArenaTree {
    pub root_id: usize,
    pub arena: Vec<Node>,
    pub tree: Ghost<Shape>,
}

/// The store `a` realises the shape `t` at link `link`, whose root's
/// `parent` field is `par`: every shape node's slot holds its index and
/// value, its child links mirror the shape's edges, and its `parent` field
/// points back at the node above it.
pub open spec fn rep(a: Seq<Node>, link: Option<usize>, par: Option<usize>, t: Shape) -> bool
    decreases t,
{
    match t {
        Shape::Empty => link is None,
        Shape::Node { idx, val, left, right } => {
            &&& link == Some(idx)
            &&& idx < a.len()
            &&& a[idx as int].idx == idx
            &&& a[idx as int].val == val
            &&& a[idx as int].parent == par
            &&& rep(a, a[idx as int].left, Some(idx), *left)
            &&& rep(a, a[idx as int].right, Some(idx), *right)
        },
    }
}

/// `rep` with whatever `parent` field the root currently holds: the form a
/// subtree is in just before it is linked under a new parent.
pub open spec fn rep_at(a: Seq<Node>, link: Option<usize>, t: Shape) -> bool {
    match t {
        Shape::Empty => link is None,
        Shape::Node { idx, .. } => idx < a.len() && rep(a, link, a[idx as int].parent, t),
    }
}

/// A shape realised at a present link is a node, and its slot mirrors it.
pub proof fn lemma_rep_node(a: Seq<Node>, cur: usize, par: Option<usize>, t: Shape)
    requires
        rep(a, Some(cur), par, t),
    ensures
        t is Node,
        cur < a.len(),
        root_of(t) == cur,
        a[cur as int].idx == cur,
        a[cur as int].val == val_of(t),
        a[cur as int].parent == par,
        rep(a, a[cur as int].left, Some(cur), left_of(t)),
        rep(a, a[cur as int].right, Some(cur), right_of(t)),
        t == (Shape::Node {
            idx: cur,
            val: val_of(t),
            left: Box::new(left_of(t)),
            right: Box::new(right_of(t)),
        }),
{
    match t {
        Shape::Empty => {
            assert(false);
        },
        Shape::Node { .. } => {},
    }
}

/// A realised shape is realised under whatever parent its root's slot holds.
pub proof fn lemma_rep_to_rep_at(a: Seq<Node>, link: Option<usize>, par: Option<usize>, t: Shape)
    requires
        rep(a, link, par, t),
    ensures
        rep_at(a, link, t),
{
    match t {
        Shape::Empty => {},
        Shape::Node { idx, .. } => {
            assert(a[idx as int].parent == par);
        },
    }
}

/// A shape realised at an absent link is empty.
pub proof fn lemma_rep_empty(a: Seq<Node>, par: Option<usize>, t: Shape)
    requires
        rep(a, None, par, t),
    ensures
        t is Empty,
{
    match t {
        Shape::Empty => {},
        Shape::Node { .. } => {
            assert(false);
        },
    }
}

/// Every index of a realised shape lies inside the store.
pub proof fn lemma_rep_bounds(a: Seq<Node>, link: Option<usize>, par: Option<usize>, t: Shape)
    requires
        rep(a, link, par, t),
    ensures
        forall|i: usize| #[trigger] idxs(t).contains(i) ==> i < a.len(),
    decreases t,
{
    match t {
        Shape::Empty => {},
        Shape::Node { idx, left, right, .. } => {
            lemma_rep_bounds(a, a[idx as int].left, Some(idx), *left);
            lemma_rep_bounds(a, a[idx as int].right, Some(idx), *right);
            assert forall|i: usize| #[trigger] idxs(t).contains(i) implies i < a.len() by {
                if i != idx {
                    assert(idxs(*left).union(idxs(*right)).contains(i));
                    if idxs(*left).contains(i) {
                    } else {
                        assert(idxs(*right).contains(i));
                    }
                }
            }
        },
    }
}

/// Framing: a realised shape stays realised in a store that agrees with the
/// old one on every index the shape uses.
pub proof fn lemma_rep_frame(
    a1: Seq<Node>,
    a2: Seq<Node>,
    link: Option<usize>,
    par: Option<usize>,
    t: Shape,
)
    requires
        rep(a1, link, par, t),
        forall|i: usize|
            #[trigger] idxs(t).contains(i) ==> i < a1.len() && i < a2.len() && a2[i as int]
                == a1[i as int],
    ensures
        rep(a2, link, par, t),
    decreases t,
{
    match t {
        Shape::Empty => {},
        Shape::Node { idx, left, right, .. } => {
            assert(idxs(t) == idxs(*left).union(idxs(*right)).insert(idx));
            assert(idxs(t).contains(idx));
            assert forall|i: usize| #[trigger] idxs(*left).contains(i) implies i < a1.len() && i
                < a2.len() && a2[i as int] == a1[i as int] by {
                assert(idxs(*left).union(idxs(*right)).contains(i));
                assert(idxs(t).contains(i));
            }
            assert forall|i: usize| #[trigger] idxs(*right).contains(i) implies i < a1.len() && i
                < a2.len() && a2[i as int] == a1[i as int] by {
                assert(idxs(*left).union(idxs(*right)).contains(i));
                assert(idxs(t).contains(i));
            }
            lemma_rep_frame(a1, a2, a1[idx as int].left, Some(idx), *left);
            lemma_rep_frame(a1, a2, a1[idx as int].right, Some(idx), *right);
        },
    }
}

/// Rewriting only the `parent` field of a realised shape's root re-realises
/// the shape under the new parent.
pub proof fn lemma_rep_reparent(
    a1: Seq<Node>,
    a2: Seq<Node>,
    i: usize,
    par: Option<usize>,
    p2: Option<usize>,
    t: Shape,
)
    requires
        rep(a1, Some(i), par, t),
        distinct_idxs(t),
        a2.len() == a1.len(),
        forall|j: int| 0 <= j < a1.len() && j != i ==> a2[j] == a1[j],
        a2[i as int].idx == a1[i as int].idx,
        a2[i as int].val == a1[i as int].val,
        a2[i as int].left == a1[i as int].left,
        a2[i as int].right == a1[i as int].right,
        a2[i as int].parent == p2,
    ensures
        rep(a2, Some(i), p2, t),
{
    match t {
        Shape::Empty => {},
        Shape::Node { idx, left, right, .. } => {
            lemma_rep_bounds(a1, a1[idx as int].left, Some(idx), *left);
            lemma_rep_bounds(a1, a1[idx as int].right, Some(idx), *right);
            lemma_rep_frame(a1, a2, a1[idx as int].left, Some(idx), *left);
            lemma_rep_frame(a1, a2, a1[idx as int].right, Some(idx), *right);
        },
    }
}

impl Node {
    /// A fresh, unlinked node for slot `idx` holding `val`.
    fn new(idx: usize, val: i64) -> (n: Node)
        ensures
            n == (Node { idx, val, parent: None, left: None, right: None }),
    {
        Node { idx, val, parent: None, left: None, right: None }
    }

    /// Whether this node has no parent.
    pub fn is_root(&self) -> (b: bool)
        ensures
            b == (self.parent is None),
    {
        self.parent.is_none()
    }

    /// Whether this node has no children.
    pub fn is_leaf(&self) -> (b: bool)
        ensures
            b == (self.left is None && self.right is None),
    {
        self.left.is_none() && self.right.is_none()
    }
}

impl ArenaTree {
    /// The shape of the part of the store reachable from the root.
    pub open spec fn shape(self) -> Shape {
        self.tree@
    }

    /// The values currently reachable from the root.
    pub open spec fn values(self) -> Set<i64> {
        vals(self.shape())
    }

    /// Well-formedness: the store realises the shape from the root (whose
    /// `parent` is absent), no index occurs twice in the shape, and the shape
    /// has the binary-search ordering.
    pub open spec fn wf(self) -> bool {
        &&& self.arena@.len() == 0 ==> self.shape() is Empty
        &&& self.arena@.len() > 0 ==> self.shape() is Node && rep(
            self.arena@,
            Some(self.root_id),
            None::<usize>,
            self.shape(),
        )
        &&& distinct_idxs(self.shape())
        &&& ordered(self.shape())
    }

    /// The count of all node slots ever allocated — deletion unlinks nodes
    /// but never removes their slots, so this is not the count of reachable
    /// nodes.
    pub fn size(&self) -> (n: usize)
        ensures
            n == self.arena@.len(),
    {
        self.arena.len()
    }

    /// Appends a fresh unlinked node holding `val` and returns its slot index.
    fn node(a: &mut Vec<Node>, val: i64) -> (id: usize)
        ensures
            id == old(a)@.len(),
            final(a)@ == old(a)@.push(Node { idx: id, val, parent: None, left: None, right: None }),
    {
        let id = a.len();
        a.push(Node::new(id, val));
        id
    }

    /// Inserts `val` into the subtree realised at `cur` (whose shape is `t`
    /// and whose root's `parent` field is `par`), appending at most one fresh
    /// node; returns the slot index that holds `val` afterwards.
    fn insert_at(
        a: &mut Vec<Node>,
        cur: usize,
        val: i64,
        Ghost(t): Ghost<Shape>,
        Ghost(par): Ghost<Option<usize>>,
    ) -> (id: usize)
        requires
            rep(old(a)@, Some(cur), par, t),
            distinct_idxs(t),
            ordered(t),
        ensures
            vals(t).contains(val) ==> final(a)@ == old(a)@ && id == idx_of(t, val),
            !vals(t).contains(val) ==> {
                &&& id == old(a)@.len()
                &&& final(a)@.len() == old(a)@.len() + 1
                &&& rep(final(a)@, Some(cur), par, insert_t(t, val, id))
                &&& forall|j: usize|
                    j < old(a)@.len() && !(#[trigger] idxs(t).contains(j)) ==> final(a)@[j as int]
                        == old(a)@[j as int]
            },
        decreases t,
    {
        proof {
            lemma_rep_bounds(a@, Some(cur), par, t);
            lemma_rep_node(a@, cur, par, t);
        }
        let c = a[cur];
        if val < c.val {
            proof {
                assert(forall|x: i64|
                    vals(right_of(t)).contains(x) ==> #[trigger] vals(t).contains(x) && x
                        > val_of(t));
                assert(forall|x: i64|
                    vals(left_of(t)).contains(x) ==> #[trigger] vals(t).contains(x));
                assert(!vals(right_of(t)).contains(val));
                assert(vals(t).contains(val) == vals(left_of(t)).contains(val));
            }
            match c.left {
                None => {
                    let ghost a0 = a@;
                    proof {
                        assert(a0[cur as int].left == None::<usize>);
                        lemma_rep_empty(a0, Some(cur), left_of(t));
                    }
                    let id = Self::node(a, val);
                    a[id].parent = Some(cur);
                    a[cur].left = Some(id);
                    proof {
                        let t2 = insert_t(t, val, id);
                        assert(left_of(t) is Empty);
                        assert(insert_t(Shape::Empty, val, id) == (Shape::Node {
                            idx: id,
                            val,
                            left: Box::new(Shape::Empty),
                            right: Box::new(Shape::Empty),
                        }));
                        assert(t2 == (Shape::Node {
                            idx: cur,
                            val: c.val,
                            left: Box::new(
                                Shape::Node {
                                    idx: id,
                                    val,
                                    left: Box::new(Shape::Empty),
                                    right: Box::new(Shape::Empty),
                                },
                            ),
                            right: Box::new(right_of(t)),
                        }));
                        assert(a@[id as int] == (Node {
                            idx: id,
                            val,
                            parent: Some(cur),
                            left: None,
                            right: None,
                        }));
                        assert(a@[cur as int].left == Some(id));
                        assert(a@[cur as int].right == a0[cur as int].right);
                        assert(a@[cur as int].parent == par);
                        assert(a@[cur as int].idx == cur);
                        assert(a@[cur as int].val == c.val);
                        assert(rep(a0, a0[cur as int].right, Some(cur), right_of(t)));
                        assert forall|i: usize| #[trigger] idxs(right_of(t)).contains(i) implies i < a0.len()
                            && i < a@.len() && a@[i as int] == a0[i as int] by {
                            assert(idxs(t).contains(i));
                            assert(i != cur);
                            assert(i != id);
                        }
                        lemma_rep_frame(a0, a@, a0[cur as int].right, Some(cur), right_of(t));
                        assert(rep(a@, None, Some(id), Shape::Empty));
                        assert(rep(
                            a@,
                            Some(id),
                            Some(cur),
                            Shape::Node {
                                idx: id,
                                val,
                                left: Box::new(Shape::Empty),
                                right: Box::new(Shape::Empty),
                            },
                        ));
                        assert(rep(a@, Some(cur), par, t2));
                    }
                    id
                },
                Some(l) => {
                    let ghost a0 = a@;
                    let ghost lt = left_of(t);
                    let id = Self::insert_at(a, l, val, Ghost(lt), Ghost(Some(cur)));
                    proof {
                        if vals(t).contains(val) {
                            assert(idx_of(t, val) == idx_of(lt, val));
                        } else {
                            let t2 = insert_t(t, val, id);
                            assert(t2 == (Shape::Node {
                                idx: cur,
                                val: c.val,
                                left: Box::new(insert_t(lt, val, id)),
                                right: Box::new(right_of(t)),
                            }));
                            assert(idxs(lt).disjoint(idxs(right_of(t))));
                            assert(!idxs(lt).contains(cur));
                            assert(a@[cur as int] == a0[cur as int]);
                            assert forall|i: usize| #[trigger] idxs(right_of(t)).contains(i) implies i
                                < a0.len() && i < a@.len() && a@[i as int] == a0[i as int] by {
                                assert(idxs(lt).union(idxs(right_of(t))).contains(i));
                                assert(idxs(t).contains(i));
                                assert(!idxs(lt).contains(i));
                            }
                            lemma_rep_frame(a0, a@, a0[cur as int].right, Some(cur), right_of(t));
                            assert(rep(a@, Some(cur), par, t2));
                            assert forall|j: usize|
                                j < a0.len() && !(#[trigger] idxs(t).contains(j)) implies a@[j as int]
                                == a0[j as int] by {
                                assert(!idxs(lt).contains(j));
                            }
                        }
                    }
                    id
                },
            }
        } else if val > c.val {
            proof {
                assert(forall|x: i64|
                    vals(left_of(t)).contains(x) ==> #[trigger] vals(t).contains(x) && x < val_of(
                        t,
                    ));
                assert(forall|x: i64|
                    vals(right_of(t)).contains(x) ==> #[trigger] vals(t).contains(x));
                assert(!vals(left_of(t)).contains(val));
                assert(vals(t).contains(val) == vals(right_of(t)).contains(val));
            }
            match c.right {
                None => {
                    let ghost a0 = a@;
                    proof {
                        assert(a0[cur as int].right == None::<usize>);
                        lemma_rep_empty(a0, Some(cur), right_of(t));
                    }
                    let id = Self::node(a, val);
                    a[id].parent = Some(cur);
                    a[cur].right = Some(id);
                    proof {
                        let t2 = insert_t(t, val, id);
                        assert(right_of(t) is Empty);
                        assert(insert_t(Shape::Empty, val, id) == (Shape::Node {
                            idx: id,
                            val,
                            left: Box::new(Shape::Empty),
                            right: Box::new(Shape::Empty),
                        }));
                        assert(t2 == (Shape::Node {
                            idx: cur,
                            val: c.val,
                            left: Box::new(left_of(t)),
                            right: Box::new(
                                Shape::Node {
                                    idx: id,
                                    val,
                                    left: Box::new(Shape::Empty),
                                    right: Box::new(Shape::Empty),
                                },
                            ),
                        }));
                        assert(a@[id as int] == (Node {
                            idx: id,
                            val,
                            parent: Some(cur),
                            left: None,
                            right: None,
                        }));
                        assert(a@[cur as int].right == Some(id));
                        assert(a@[cur as int].left == a0[cur as int].left);
                        assert(a@[cur as int].parent == par);
                        assert(a@[cur as int].idx == cur);
                        assert(a@[cur as int].val == c.val);
                        assert(rep(a0, a0[cur as int].left, Some(cur), left_of(t)));
                        assert forall|i: usize| #[trigger] idxs(left_of(t)).contains(i) implies i < a0.len()
                            && i < a@.len() && a@[i as int] == a0[i as int] by {
                            assert(idxs(t).contains(i));
                            assert(i != cur);
                            assert(i != id);
                        }
                        lemma_rep_frame(a0, a@, a0[cur as int].left, Some(cur), left_of(t));
                        assert(rep(a@, None, Some(id), Shape::Empty));
                        assert(rep(
                            a@,
                            Some(id),
                            Some(cur),
                            Shape::Node {
                                idx: id,
                                val,
                                left: Box::new(Shape::Empty),
                                right: Box::new(Shape::Empty),
                            },
                        ));
                        assert(rep(a@, Some(cur), par, t2));
                    }
                    id
                },
                Some(r) => {
                    let ghost a0 = a@;
                    let ghost rt = right_of(t);
                    let id = Self::insert_at(a, r, val, Ghost(rt), Ghost(Some(cur)));
                    proof {
                        if vals(t).contains(val) {
                            assert(idx_of(t, val) == idx_of(rt, val));
                        } else {
                            let t2 = insert_t(t, val, id);
                            assert(t2 == (Shape::Node {
                                idx: cur,
                                val: c.val,
                                left: Box::new(left_of(t)),
                                right: Box::new(insert_t(rt, val, id)),
                            }));
                            assert(idxs(left_of(t)).disjoint(idxs(rt)));
                            assert(!idxs(rt).contains(cur));
                            assert(a@[cur as int] == a0[cur as int]);
                            assert forall|i: usize| #[trigger] idxs(left_of(t)).contains(i) implies i
                                < a0.len() && i < a@.len() && a@[i as int] == a0[i as int] by {
                                assert(idxs(left_of(t)).union(idxs(rt)).contains(i));
                                assert(idxs(t).contains(i));
                                assert(!idxs(rt).contains(i));
                            }
                            lemma_rep_frame(a0, a@, a0[cur as int].left, Some(cur), left_of(t));
                            assert(rep(a@, Some(cur), par, t2));
                            assert forall|j: usize|
                                j < a0.len() && !(#[trigger] idxs(t).contains(j)) implies a@[j as int]
                                == a0[j as int] by {
                                assert(!idxs(rt).contains(j));
                            }
                        }
                    }
                    id
                },
            }
        } else {
            proof {
                assert(vals(t).contains(val));
                assert(idx_of(t, val) == cur);
            }
            cur
        }
    }

    /// Inserts `val`, creating a node only when the value is new; returns the
    /// index of the node holding `val`.  Inserting a value that is already
    /// present mutates nothing and returns the existing node's index.
    pub fn insert(&mut self, val: i64) -> (id: usize)
        requires
            old(self).wf(),
        ensures
            final(self).wf(),
            old(self).values().contains(val) ==> {
                &&& final(self).arena@ == old(self).arena@
                &&& final(self).root_id == old(self).root_id
                &&& final(self).shape() == old(self).shape()
                &&& id == idx_of(old(self).shape(), val)
            },
            !old(self).values().contains(val) ==> {
                &&& id == old(self).arena@.len()
                &&& final(self).arena@.len() == old(self).arena@.len() + 1
                &&& final(self).shape() == insert_t(old(self).shape(), val, id)
                &&& final(self).root_id == (if old(self).arena@.len() == 0 {
                    id
                } else {
                    old(self).root_id
                })
            },
            final(self).values() == old(self).values().insert(val),
    {
        if self.arena.len() == 0 {
            let id = Self::node(&mut self.arena, val);
            self.root_id = id;
            self.tree = Ghost(
                Shape::Node {
                    idx: id,
                    val,
                    left: Box::new(Shape::Empty),
                    right: Box::new(Shape::Empty),
                },
            );
            proof {
                assert(old(self).shape() is Empty);
                assert(self.arena@.len() == 1);
                assert(self.arena@[id as int] == (Node {
                    idx: id,
                    val,
                    parent: None,
                    left: None,
                    right: None,
                }));
                assert(rep(self.arena@, None, Some(id), Shape::Empty));
                assert(rep(self.arena@, Some(id), None::<usize>, self.shape()));
                assert(idxs(Shape::Empty) =~= Set::<usize>::empty());
                assert(vals(Shape::Empty) =~= Set::<i64>::empty());
                assert(vals(self.shape()) =~= old(self).values().insert(val));
            }
            id
        } else {
            let ghost t0 = self.shape();
            let root = self.root_id;
            let id = Self::insert_at(&mut self.arena, root, val, Ghost(t0), Ghost(None::<usize>));
            proof {
                lemma_rep_bounds(old(self).arena@, Some(old(self).root_id), None::<usize>, t0);
                assert(!idxs(t0).contains(old(self).arena@.len() as usize));
                lemma_insert_props(t0, val, old(self).arena@.len() as usize);
            }
            self.tree = Ghost(
                if vals(t0).contains(val) {
                    t0
                } else {
                    insert_t(t0, val, id)
                },
            );
            proof {
                if vals(t0).contains(val) {
                    assert(vals(t0).insert(val) =~= vals(t0));
                } else {
                    assert(id == old(self).arena@.len());
                    lemma_insert_props(t0, val, id);
                    assert(self.shape() is Node);
                }
            }
            id
        }
    }

    /// Walks from the root comparing `val` with each visited node, with the
    /// dual-purpose result of `locate`: on an empty tree, `None`; where the
    /// search path ends at a missing child, the would-be parent's index and
    /// side (`true` for left); where the value is found, the holding node's
    /// parent and side — `None` when it sits at the root, which callers must
    /// tell apart from the empty tree by checking the root's value.
    #[verifier::loop_isolation(false)]
    pub fn search_parent(&mut self, val: i64) -> (r: Option<(usize, bool)>)
        requires
            old(self).wf(),
        ensures
            final(self).arena@ == old(self).arena@,
            final(self).root_id == old(self).root_id,
            final(self).shape() == old(self).shape(),
            r == locate(old(self).shape(), val, None::<(usize, bool)>),
            match r {
                Some(pd) => pd.0 < old(self).arena@.len(),
                None => true,
            },
    {
        if self.arena.len() == 0 {
            return None;
        }
        let mut cur: usize = self.root_id;
        let ghost mut t: Shape = self.shape();
        let ghost mut up: Option<(usize, bool)> = None;
        let ghost mut par: Option<usize> = None;
        loop
            invariant
                rep(self.arena@, Some(cur), par, t),
                distinct_idxs(t),
                ordered(t),
                locate(self.shape(), val, None::<(usize, bool)>) == locate(t, val, up),
                match up {
                    None => par is None,
                    Some((p, s)) => {
                        &&& par == Some(p)
                        &&& p < self.arena@.len()
                        &&& (s ==> self.arena@[p as int].left == Some(cur))
                        &&& (!s ==> self.arena@[p as int].right == Some(cur)
                            && self.arena@[p as int].left != Some(cur))
                    },
                },
            decreases t,
        {
            proof {
                lemma_rep_node(self.arena@, cur, par, t);
            }
            let c = self.arena[cur];
            if val < c.val {
                match c.left {
                    None => {
                        proof {
                            lemma_rep_empty(self.arena@, Some(cur), left_of(t));
                        }
                        return Some((cur, true));
                    },
                    Some(l) => {
                        proof {
                            lemma_rep_node(self.arena@, l, Some(cur), left_of(t));
                            t = left_of(t);
                            up = Some((cur, true));
                            par = Some(cur);
                        }
                        cur = l;
                    },
                }
            } else if val > c.val {
                match c.right {
                    None => {
                        proof {
                            lemma_rep_empty(self.arena@, Some(cur), right_of(t));
                        }
                        return Some((cur, false));
                    },
                    Some(rc) => {
                        proof {
                            lemma_rep_node(self.arena@, rc, Some(cur), right_of(t));
                            assert(self.arena@[cur as int].left != Some(rc)) by {
                                match left_of(t) {
                                    Shape::Empty => {
                                        assert(self.arena@[cur as int].left is None);
                                    },
                                    Shape::Node { .. } => {
                                        let lr = root_of(left_of(t));
                                        assert(self.arena@[cur as int].left == Some(lr));
                                        assert(idxs(left_of(t)).contains(lr));
                                        assert(idxs(right_of(t)).contains(rc));
                                        assert(idxs(left_of(t)).disjoint(idxs(right_of(t))));
                                    },
                                }
                            }
                            t = right_of(t);
                            up = Some((cur, false));
                            par = Some(cur);
                        }
                        cur = rc;
                    },
                }
            } else {
                match c.parent {
                    None => {
                        return None;
                    },
                    Some(p) => {
                        let is_left = match self.arena[p].left {
                            Some(x) => x == cur,
                            None => false,
                        };
                        return Some((p, is_left));
                    },
                }
            }
        }
    }

    /// What `locate`'s result means over the store: a found value's reported
    /// parent links to the node holding it, and a reported attach point has
    /// no child on the reported side.
    proof fn lemma_locate(
        a: Seq<Node>,
        cur: usize,
        par: Option<usize>,
        t: Shape,
        v: i64,
        up: Option<(usize, bool)>,
    )
        requires
            rep(a, Some(cur), par, t),
            distinct_idxs(t),
            ordered(t),
            match up {
                None => true,
                Some((p, s)) => p < a.len() && (if s {
                    a[p as int].left
                } else {
                    a[p as int].right
                }) == Some(cur),
            },
        ensures
            match locate(t, v, up) {
                None => up is None && val_of(t) == v && vals(t).contains(v),
                Some((p, s)) => {
                    &&& p < a.len()
                    &&& (vals(t).contains(v) ==> (if s {
                        a[p as int].left
                    } else {
                        a[p as int].right
                    }) == Some(idx_of(t, v)) && a[idx_of(t, v) as int].val == v && idx_of(t, v)
                        < a.len())
                    &&& (!vals(t).contains(v) ==> (if s {
                        a[p as int].left
                    } else {
                        a[p as int].right
                    }) is None)
                },
            },
        decreases t,
    {
        lemma_rep_node(a, cur, par, t);
        let lt = left_of(t);
        let rt = right_of(t);
        assert(vals(t).contains(val_of(t)));
        assert(forall|x: i64| vals(lt).contains(x) ==> #[trigger] vals(t).contains(x) && x < val_of(t));
        assert(forall|x: i64| vals(rt).contains(x) ==> #[trigger] vals(t).contains(x) && x > val_of(t));
        if v < val_of(t) {
            assert(vals(t).contains(v) == vals(lt).contains(v));
            match lt {
                Shape::Empty => {
                    assert(a[cur as int].left is None);
                    assert(locate(t, v, up) == Some((cur, true)));
                },
                Shape::Node { .. } => {
                    let l = root_of(lt);
                    assert(a[cur as int].left == Some(l));
                    Self::lemma_locate(a, l, Some(cur), lt, v, Some((cur, true)));
                    assert(locate(t, v, up) == locate(lt, v, Some((cur, true))));
                    assert(idx_of(t, v) == idx_of(lt, v));
                },
            }
        } else if v > val_of(t) {
            assert(vals(t).contains(v) == vals(rt).contains(v));
            match rt {
                Shape::Empty => {
                    assert(a[cur as int].right is None);
                    assert(locate(t, v, up) == Some((cur, false)));
                },
                Shape::Node { .. } => {
                    let r = root_of(rt);
                    assert(a[cur as int].right == Some(r));
                    Self::lemma_locate(a, r, Some(cur), rt, v, Some((cur, false)));
                    assert(locate(t, v, up) == locate(rt, v, Some((cur, false))));
                    assert(idx_of(t, v) == idx_of(rt, v));
                },
            }
        } else {
            assert(locate(t, v, up) == up);
            assert(idx_of(t, v) == cur);
            assert(a[cur as int].val == v);
        }
    }

    /// Looks up `val`: the index of the node holding it, or `None` when it is
    /// not in the tree.
    pub fn search(&mut self, val: i64) -> (r: Option<usize>)
        requires
            old(self).wf(),
        ensures
            final(self).arena@ == old(self).arena@,
            final(self).root_id == old(self).root_id,
            final(self).shape() == old(self).shape(),
            r == (if old(self).values().contains(val) {
                Some(idx_of(old(self).shape(), val))
            } else {
                None::<usize>
            }),
    {
        let sp = self.search_parent(val);
        match sp {
            None => {
                if self.arena.len() > 0 {
                    proof {
                        lemma_rep_node(self.arena@, self.root_id, None::<usize>, self.shape());
                        Self::lemma_locate(
                            self.arena@,
                            self.root_id,
                            None::<usize>,
                            self.shape(),
                            val,
                            None::<(usize, bool)>,
                        );
                    }
                    if self.arena[self.root_id].val == val {
                        Some(self.root_id)
                    } else {
                        None
                    }
                } else {
                    proof {
                        assert(vals(self.shape()) =~= Set::<i64>::empty());
                    }
                    None
                }
            },
            Some((p, d)) => {
                proof {
                    if self.shape() is Empty {
                        assert(locate(self.shape(), val, None::<(usize, bool)>) is None);
                    }
                    assert(self.shape() is Node);
                    Self::lemma_locate(
                        self.arena@,
                        self.root_id,
                        None::<usize>,
                        self.shape(),
                        val,
                        None::<(usize, bool)>,
                    );
                }
                let pn = self.arena[p];
                if d {
                    pn.left
                } else {
                    pn.right
                }
            },
        }
    }

    /// The subtree of a realised shape rooted at a used index is itself
    /// realised there.
    proof fn lemma_sub_at(a: Seq<Node>, cur: usize, par: Option<usize>, t: Shape, id: usize)
        requires
            rep(a, Some(cur), par, t),
            distinct_idxs(t),
            idxs(t).contains(id),
        ensures
            sub_at(t, id) is Node,
            root_of(sub_at(t, id)) == id,
            id < a.len(),
            rep(a, Some(id), a[id as int].parent, sub_at(t, id)),
            distinct_idxs(sub_at(t, id)),
        decreases t,
    {
        lemma_rep_node(a, cur, par, t);
        if id == cur {
            assert(sub_at(t, id) == t);
        } else {
            assert(idxs(left_of(t)).union(idxs(right_of(t))).contains(id));
            if idxs(left_of(t)).contains(id) {
                let l = root_of(left_of(t));
                assert(left_of(t) is Node) by {
                    if left_of(t) is Empty {
                        assert(idxs(left_of(t)) =~= Set::<usize>::empty());
                    }
                }
                assert(a[cur as int].left == Some(l));
                Self::lemma_sub_at(a, l, Some(cur), left_of(t), id);
                assert(sub_at(t, id) == sub_at(left_of(t), id));
            } else {
                assert(idxs(right_of(t)).contains(id));
                let r = root_of(right_of(t));
                assert(right_of(t) is Node) by {
                    if right_of(t) is Empty {
                        assert(idxs(right_of(t)) =~= Set::<usize>::empty());
                    }
                }
                assert(a[cur as int].right == Some(r));
                Self::lemma_sub_at(a, r, Some(cur), right_of(t), id);
                assert(sub_at(t, id) == sub_at(right_of(t), id));
            }
        }
    }

    /// The index of the leftmost node of the subtree rooted at the node with
    /// index `id`: the slot holding that subtree's smallest value.
    #[verifier::loop_isolation(false)]
    pub fn most_left(&self, id: usize) -> (m: usize)
        requires
            self.wf(),
            idxs(self.shape()).contains(id),
        ensures
            m == min_idx(sub_at(self.shape(), id)),
    {
        proof {
            if self.shape() is Empty {
                assert(idxs(self.shape()) =~= Set::<usize>::empty());
            }
            Self::lemma_sub_at(
                self.arena@,
                self.root_id,
                None::<usize>,
                self.shape(),
                id,
            );
        }
        let mut cur: usize = id;
        let ghost mut t: Shape = sub_at(self.shape(), id);
        let ghost mut par: Option<usize> = self.arena@[id as int].parent;
        loop
            invariant
                rep(self.arena@, Some(cur), par, t),
                distinct_idxs(t),
                min_idx(sub_at(self.shape(), id)) == min_idx(t),
            decreases t,
        {
            proof {
                lemma_rep_node(self.arena@, cur, par, t);
            }
            let c = self.arena[cur];
            match c.left {
                None => {
                    proof {
                        lemma_rep_empty(self.arena@, Some(cur), left_of(t));
                        assert(min_idx(t) == cur);
                    }
                    return cur;
                },
                Some(l) => {
                    proof {
                        assert(left_of(t) is Node) by {
                            if left_of(t) is Empty {
                                assert(self.arena@[cur as int].left is None);
                            }
                        }
                        assert(min_idx(t) == min_idx(left_of(t)));
                        t = left_of(t);
                        par = Some(cur);
                    }
                    cur = l;
                },
            }
        }
    }

    /// Unlinks the leftmost node of the subtree realised at `cur` (the
    /// in-order first node, holding the smallest value); its right subtree
    /// takes its place.  Returns the unlinked node's index and the link to
    /// what remains of the subtree.  The unlinked node's slot stays in the
    /// store with its index and value intact.
    fn remove_min_at(
        a: &mut Vec<Node>,
        cur: usize,
        Ghost(t): Ghost<Shape>,
        Ghost(par): Ghost<Option<usize>>,
    ) -> (r: (usize, Option<usize>))
        requires
            rep(old(a)@, Some(cur), par, t),
            distinct_idxs(t),
            ordered(t),
        ensures
            final(a)@.len() == old(a)@.len(),
            forall|j: usize|
                j < old(a)@.len() && !(#[trigger] idxs(t).contains(j)) ==> final(a)@[j as int]
                    == old(a)@[j as int],
            r.0 == min_idx(t),
            r.0 < old(a)@.len(),
            final(a)@[r.0 as int].idx == r.0,
            final(a)@[r.0 as int].val == min_val(t),
            rep_at(final(a)@, r.1, drop_min(t)),
        decreases t,
    {
        proof {
            lemma_rep_node(a@, cur, par, t);
            lemma_rep_bounds(a@, Some(cur), par, t);
            lemma_min_props(t);
        }
        let c = a[cur];
        match c.left {
            None => {
                proof {
                    lemma_rep_empty(a@, Some(cur), left_of(t));
                    assert(min_idx(t) == cur && min_val(t) == val_of(t));
                    assert(drop_min(t) == right_of(t));
                    match right_of(t) {
                        Shape::Empty => {},
                        Shape::Node { .. } => {
                            let rr = root_of(right_of(t));
                            assert(a@[cur as int].right == Some(rr));
                            lemma_rep_node(a@, rr, Some(cur), right_of(t));
                        },
                    }
                    assert(rep_at(a@, c.right, drop_min(t)));
                }
                (cur, c.right)
            },
            Some(l) => {
                let ghost a0 = a@;
                let ghost lt = left_of(t);
                let ghost rt = right_of(t);
                proof {
                    lemma_rep_node(a0, l, Some(cur), lt);
                    lemma_min_props(lt);
                    assert(min_idx(t) == min_idx(lt) && min_val(t) == min_val(lt));
                    assert(drop_min(t) == (Shape::Node {
                        idx: cur,
                        val: val_of(t),
                        left: Box::new(drop_min(lt)),
                        right: Box::new(rt),
                    }));
                }
                let (mi, nl) = Self::remove_min_at(a, l, Ghost(lt), Ghost(Some(cur)));
                let ghost a1 = a@;
                proof {
                    assert(!idxs(lt).contains(cur));
                    assert(a1[cur as int] == a0[cur as int]);
                    assert(idxs(lt).disjoint(idxs(rt)));
                    assert forall|i: usize| #[trigger] idxs(rt).contains(i) implies i < a0.len()
                        && i < a1.len() && a1[i as int] == a0[i as int] by {
                        assert(idxs(lt).union(idxs(rt)).contains(i));
                        assert(idxs(t).contains(i));
                        assert(!idxs(lt).contains(i));
                    }
                    lemma_rep_frame(a0, a1, a0[cur as int].right, Some(cur), rt);
                }
                a[cur].left = nl;
                let ghost a2 = a@;
                let ghost dlt = drop_min(lt);
                proof {
                    // the remaining left subtree and the right subtree survive
                    // the rewrite of `cur`'s left link
                    assert(forall|i: usize|
                        #[trigger] idxs(dlt).contains(i) ==> idxs(lt).contains(i));
                    match dlt {
                        Shape::Empty => {},
                        Shape::Node { .. } => {
                            let x = root_of(dlt);
                            assert(rep(a1, nl, a1[x as int].parent, dlt));
                            assert(idxs(dlt).contains(x));
                            assert forall|i: usize| #[trigger] idxs(dlt).contains(i) implies i
                                < a1.len() && i < a2.len() && a2[i as int] == a1[i as int] by {
                                assert(idxs(lt).contains(i));
                                assert(idxs(lt).union(idxs(rt)).contains(i));
                                assert(idxs(t).contains(i));
                                assert(i != cur);
                            }
                            lemma_rep_frame(a1, a2, nl, a1[x as int].parent, dlt);
                        },
                    }
                    assert forall|i: usize| #[trigger] idxs(rt).contains(i) implies i < a1.len()
                        && i < a2.len() && a2[i as int] == a1[i as int] by {
                        assert(idxs(t).contains(i));
                    }
                    lemma_rep_frame(a1, a2, a0[cur as int].right, Some(cur), rt);
                }
                match nl {
                    None => {
                        proof {
                            assert(dlt is Empty) by {
                                match dlt {
                                    Shape::Empty => {},
                                    Shape::Node { .. } => {
                                        assert(rep(a1, None, a1[root_of(dlt) as int].parent, dlt));
                                        assert(false);
                                    },
                                }
                            }
                        }
                    },
                    Some(x) => {
                        proof {
                            assert(dlt is Node) by {
                                if dlt is Empty {
                                    assert(rep_at(a1, Some(x), dlt));
                                }
                            }
                            assert(root_of(dlt) == x);
                            assert(x < a@.len());
                        }
                        a[x].parent = Some(cur);
                        proof {
                            let a3 = a@;
                            assert(idxs(dlt).contains(x));
                            assert(idxs(lt).contains(x));
                            assert(x != cur);
                            assert(rep(a2, Some(x), a1[x as int].parent, dlt));
                            lemma_rep_reparent(a2, a3, x, a1[x as int].parent, Some(cur), dlt);
                            assert forall|i: usize| #[trigger] idxs(rt).contains(i) implies i
                                < a2.len() && i < a3.len() && a3[i as int] == a2[i as int] by {
                                assert(idxs(lt).union(idxs(rt)).contains(i));
                                assert(idxs(t).contains(i));
                                assert(!idxs(lt).contains(i));
                            }
                            lemma_rep_frame(a2, a3, a0[cur as int].right, Some(cur), rt);
                        }
                    },
                }
                proof {
                    assert(a@[cur as int].idx == cur);
                    assert(a@[cur as int].val == val_of(t));
                    assert(a@[cur as int].parent == par);
                    assert(a@[cur as int].left == nl);
                    assert(a@[cur as int].right == a0[cur as int].right);
                    assert(rep(a@, nl, Some(cur), dlt));
                    assert(rep(a@, a@[cur as int].right, Some(cur), rt));
                    assert(rep(a@, Some(cur), par, drop_min(t)));
                    assert(rep_at(a@, Some(cur), drop_min(t)));
                    assert(!idxs(dlt).contains(mi));
                    assert(a@[mi as int] == a1[mi as int]);
                    assert forall|j: usize|
                        j < a0.len() && !(#[trigger] idxs(t).contains(j)) implies a@[j as int]
                        == a0[j as int] by {
                        assert(!idxs(lt).contains(j));
                        assert(j != cur);
                        if idxs(dlt).contains(j) {
                            assert(idxs(lt).contains(j));
                        }
                    }
                }
                (mi, Some(cur))
            },
        }
    }

    /// Deletes `val` from the subtree realised at `cur`, relinking around the
    /// unlinked node; returns whether the value was found and the link to the
    /// subtree's new root.  Touches no slot outside the subtree, and touches
    /// nothing at all when the value is absent.
    fn delete_at(
        a: &mut Vec<Node>,
        cur: usize,
        val: i64,
        Ghost(t): Ghost<Shape>,
        Ghost(par): Ghost<Option<usize>>,
    ) -> (r: (bool, Option<usize>))
        requires
            rep(old(a)@, Some(cur), par, t),
            distinct_idxs(t),
            ordered(t),
        ensures
            r.0 == vals(t).contains(val),
            final(a)@.len() == old(a)@.len(),
            forall|j: usize|
                j < old(a)@.len() && !(#[trigger] idxs(t).contains(j)) ==> final(a)@[j as int]
                    == old(a)@[j as int],
            !r.0 ==> final(a)@ == old(a)@,
            r.0 ==> rep_at(final(a)@, r.1, delete_t(t, val)),
        decreases t,
    {
        proof {
            lemma_rep_node(a@, cur, par, t);
            lemma_rep_bounds(a@, Some(cur), par, t);
            assert(vals(t).contains(val_of(t)));
            assert(forall|x: i64|
                vals(left_of(t)).contains(x) ==> #[trigger] vals(t).contains(x) && x < val_of(t));
            assert(forall|x: i64|
                vals(right_of(t)).contains(x) ==> #[trigger] vals(t).contains(x) && x > val_of(t));
        }
        let c = a[cur];
        if val < c.val {
            proof {
                assert(!vals(right_of(t)).contains(val));
                assert(vals(t).contains(val) == vals(left_of(t)).contains(val));
            }
            match c.left {
                None => {
                    proof {
                        lemma_rep_empty(a@, Some(cur), left_of(t));
                        assert(vals(left_of(t)) =~= Set::<i64>::empty());
                    }
                    (false, Some(cur))
                },
                Some(l) => {
                    let ghost a0 = a@;
                    let ghost lt = left_of(t);
                    let ghost rt = right_of(t);
                    proof {
                        lemma_rep_node(a0, l, Some(cur), lt);
                        lemma_delete_props(lt, val);
                    }
                    let (f, nl) = Self::delete_at(a, l, val, Ghost(lt), Ghost(Some(cur)));
                    if f {
                        let ghost a1 = a@;
                        let ghost dlt = delete_t(lt, val);
                        proof {
                            assert(!idxs(lt).contains(cur));
                            assert(a1[cur as int] == a0[cur as int]);
                            assert(idxs(lt).disjoint(idxs(rt)));
                            assert forall|i: usize| #[trigger] idxs(rt).contains(i) implies i
                                < a0.len() && i < a1.len() && a1[i as int] == a0[i as int] by {
                                assert(idxs(lt).union(idxs(rt)).contains(i));
                                assert(idxs(t).contains(i));
                                assert(!idxs(lt).contains(i));
                            }
                            lemma_rep_frame(a0, a1, a0[cur as int].right, Some(cur), rt);
                        }
                        a[cur].left = nl;
                        let ghost a2 = a@;
                        proof {
                            match dlt {
                                Shape::Empty => {},
                                Shape::Node { .. } => {
                                    let x = root_of(dlt);
                                    assert(rep(a1, nl, a1[x as int].parent, dlt));
                                    assert(idxs(dlt).contains(x));
                                    assert forall|i: usize| #[trigger] idxs(dlt).contains(
                                        i,
                                    ) implies i < a1.len() && i < a2.len() && a2[i as int]
                                        == a1[i as int] by {
                                        assert(idxs(lt).contains(i));
                                        assert(idxs(lt).union(idxs(rt)).contains(i));
                                        assert(idxs(t).contains(i));
                                        assert(i != cur);
                                    }
                                    lemma_rep_frame(a1, a2, nl, a1[x as int].parent, dlt);
                                },
                            }
                            assert forall|i: usize| #[trigger] idxs(rt).contains(i) implies i
                                < a1.len() && i < a2.len() && a2[i as int] == a1[i as int] by {
                                assert(idxs(t).contains(i));
                            }
                            lemma_rep_frame(a1, a2, a0[cur as int].right, Some(cur), rt);
                        }
                        match nl {
                            None => {
                                proof {
                                    assert(dlt is Empty) by {
                                        match dlt {
                                            Shape::Empty => {},
                                            Shape::Node { .. } => {
                                                assert(rep(
                                                    a1,
                                                    None,
                                                    a1[root_of(dlt) as int].parent,
                                                    dlt,
                                                ));
                                                assert(false);
                                            },
                                        }
                                    }
                                }
                            },
                            Some(x) => {
                                proof {
                                    assert(dlt is Node) by {
                                        if dlt is Empty {
                                            assert(rep_at(a@, Some(x), dlt));
                                        }
                                    }
                                    assert(root_of(dlt) == x);
                                    assert(x < a@.len());
                                }
                                a[x].parent = Some(cur);
                                proof {
                                    let a3 = a@;
                                    assert(idxs(dlt).contains(x));
                                    assert(idxs(lt).contains(x));
                                    assert(x != cur);
                                    assert(rep(a2, Some(x), a1[x as int].parent, dlt));
                                    lemma_rep_reparent(
                                        a2,
                                        a3,
                                        x,
                                        a1[x as int].parent,
                                        Some(cur),
                                        dlt,
                                    );
                                    assert forall|i: usize| #[trigger] idxs(rt).contains(
                                        i,
                                    ) implies i < a2.len() && i < a3.len() && a3[i as int]
                                        == a2[i as int] by {
                                        assert(idxs(lt).union(idxs(rt)).contains(i));
                                        assert(idxs(t).contains(i));
                                        assert(!idxs(lt).contains(i));
                                    }
                                    lemma_rep_frame(a2, a3, a0[cur as int].right, Some(cur), rt);
                                }
                            },
                        }
                        proof {
                            let d = delete_t(t, val);
                            assert(d == (Shape::Node {
                                idx: cur,
                                val: val_of(t),
                                left: Box::new(dlt),
                                right: Box::new(rt),
                            }));
                            assert(a@[cur as int].idx == cur);
                            assert(a@[cur as int].val == val_of(t));
                            assert(a@[cur as int].parent == par);
                            assert(a@[cur as int].left == nl);
                            assert(a@[cur as int].right == a0[cur as int].right);
                            assert(rep(a@, nl, Some(cur), dlt));
                            assert(rep(a@, a@[cur as int].right, Some(cur), rt));
                            assert(rep(a@, Some(cur), par, d));
                            assert(rep_at(a@, Some(cur), d));
                            assert forall|j: usize|
                                j < a0.len() && !(#[trigger] idxs(t).contains(j)) implies a@[j as int]
                                == a0[j as int] by {
                                assert(!idxs(lt).contains(j));
                                assert(j != cur);
                                if idxs(dlt).contains(j) {
                                    assert(idxs(lt).contains(j));
                                }
                            }
                        }
                        (true, Some(cur))
                    } else {
                        (false, Some(cur))
                    }
                },
            }
        } else if val > c.val {
            proof {
                assert(!vals(left_of(t)).contains(val));
                assert(vals(t).contains(val) == vals(right_of(t)).contains(val));
            }
            match c.right {
                None => {
                    proof {
                        lemma_rep_empty(a@, Some(cur), right_of(t));
                        assert(vals(right_of(t)) =~= Set::<i64>::empty());
                    }
                    (false, Some(cur))
                },
                Some(rc) => {
                    let ghost a0 = a@;
                    let ghost lt = left_of(t);
                    let ghost rt = right_of(t);
                    proof {
                        lemma_rep_node(a0, rc, Some(cur), rt);
                        lemma_delete_props(rt, val);
                    }
                    let (f, nl) = Self::delete_at(a, rc, val, Ghost(rt), Ghost(Some(cur)));
                    if f {
                        let ghost a1 = a@;
                        let ghost drt = delete_t(rt, val);
                        proof {
                            assert(!idxs(rt).contains(cur));
                            assert(a1[cur as int] == a0[cur as int]);
                            assert(idxs(lt).disjoint(idxs(rt)));
                            assert forall|i: usize| #[trigger] idxs(lt).contains(i) implies i
                                < a0.len() && i < a1.len() && a1[i as int] == a0[i as int] by {
                                assert(idxs(lt).union(idxs(rt)).contains(i));
                                assert(idxs(t).contains(i));
                                assert(!idxs(rt).contains(i));
                            }
                            lemma_rep_frame(a0, a1, a0[cur as int].left, Some(cur), lt);
                        }
                        a[cur].right = nl;
                        let ghost a2 = a@;
                        proof {
                            match drt {
                                Shape::Empty => {},
                                Shape::Node { .. } => {
                                    let x = root_of(drt);
                                    assert(rep(a1, nl, a1[x as int].parent, drt));
                                    assert(idxs(drt).contains(x));
                                    assert forall|i: usize| #[trigger] idxs(drt).contains(
                                        i,
                                    ) implies i < a1.len() && i < a2.len() && a2[i as int]
                                        == a1[i as int] by {
                                        assert(idxs(rt).contains(i));
                                        assert(idxs(lt).union(idxs(rt)).contains(i));
                                        assert(idxs(t).contains(i));
                                        assert(i != cur);
                                    }
                                    lemma_rep_frame(a1, a2, nl, a1[x as int].parent, drt);
                                },
                            }
                            assert forall|i: usize| #[trigger] idxs(lt).contains(i) implies i
                                < a1.len() && i < a2.len() && a2[i as int] == a1[i as int] by {
                                assert(idxs(t).contains(i));
                            }
                            lemma_rep_frame(a1, a2, a0[cur as int].left, Some(cur), lt);
                        }
                        match nl {
                            None => {
                                proof {
                                    assert(drt is Empty) by {
                                        match drt {
                                            Shape::Empty => {},
                                            Shape::Node { .. } => {
                                                assert(rep(
                                                    a1,
                                                    None,
                                                    a1[root_of(drt) as int].parent,
                                                    drt,
                                                ));
                                                assert(false);
                                            },
                                        }
                                    }
                                }
                            },
                            Some(x) => {
                                proof {
                                    assert(drt is Node) by {
                                        if drt is Empty {
                                            assert(rep_at(a@, Some(x), drt));
                                        }
                                    }
                                    assert(root_of(drt) == x);
                                    assert(x < a@.len());
                                }
                                a[x].parent = Some(cur);
                                proof {
                                    let a3 = a@;
                                    assert(idxs(drt).contains(x));
                                    assert(idxs(rt).contains(x));
                                    assert(x != cur);
                                    assert(rep(a2, Some(x), a1[x as int].parent, drt));
                                    lemma_rep_reparent(
                                        a2,
                                        a3,
                                        x,
                                        a1[x as int].parent,
                                        Some(cur),
                                        drt,
                                    );
                                    assert forall|i: usize| #[trigger] idxs(lt).contains(
                                        i,
                                    ) implies i < a2.len() && i < a3.len() && a3[i as int]
                                        == a2[i as int] by {
                                        assert(idxs(lt).union(idxs(rt)).contains(i));
                                        assert(idxs(t).contains(i));
                                        assert(!idxs(rt).contains(i));
                                    }
                                    lemma_rep_frame(a2, a3, a0[cur as int].left, Some(cur), lt);
                                }
                            },
                        }
                        proof {
                            let d = delete_t(t, val);
                            assert(d == (Shape::Node {
                                idx: cur,
                                val: val_of(t),
                                left: Box::new(lt),
                                right: Box::new(drt),
                            }));
                            assert(a@[cur as int].idx == cur);
                            assert(a@[cur as int].val == val_of(t));
                            assert(a@[cur as int].parent == par);
                            assert(a@[cur as int].right == nl);
                            assert(a@[cur as int].left == a0[cur as int].left);
                            assert(rep(a@, nl, Some(cur), drt));
                            assert(rep(a@, a@[cur as int].left, Some(cur), lt));
                            assert(rep(a@, Some(cur), par, d));
                            assert(rep_at(a@, Some(cur), d));
                            assert forall|j: usize|
                                j < a0.len() && !(#[trigger] idxs(t).contains(j)) implies a@[j as int]
                                == a0[j as int] by {
                                assert(!idxs(rt).contains(j));
                                assert(j != cur);
                                if idxs(drt).contains(j) {
                                    assert(idxs(rt).contains(j));
                                }
                            }
                        }
                        (true, Some(cur))
                    } else {
                        (false, Some(cur))
                    }
                },
            }
        } else {
            // val == c.val: unlink this node by case on its children
            match (c.left, c.right) {
                (None, None) => {
                    proof {
                        lemma_rep_empty(a@, Some(cur), left_of(t));
                        lemma_rep_empty(a@, Some(cur), right_of(t));
                        assert(delete_t(t, val) == right_of(t));
                    }
                    (true, None)
                },
                (None, Some(rc)) => {
                    proof {
                        lemma_rep_empty(a@, Some(cur), left_of(t));
                        assert(delete_t(t, val) == right_of(t));
                        lemma_rep_node(a@, rc, Some(cur), right_of(t));
                        assert(rep_at(a@, Some(rc), right_of(t)));
                    }
                    (true, Some(rc))
                },
                (Some(lc), None) => {
                    proof {
                        lemma_rep_empty(a@, Some(cur), right_of(t));
                        assert(left_of(t) is Node) by {
                            if left_of(t) is Empty {
                                assert(a@[cur as int].left is None);
                            }
                        }
                        assert(delete_t(t, val) == left_of(t));
                        lemma_rep_node(a@, lc, Some(cur), left_of(t));
                        assert(rep_at(a@, Some(lc), left_of(t)));
                    }
                    (true, Some(lc))
                },
                (Some(lc), Some(rc)) => {
                    let ghost a0 = a@;
                    let ghost lt = left_of(t);
                    let ghost rt = right_of(t);
                    proof {
                        lemma_rep_node(a0, lc, Some(cur), lt);
                        lemma_rep_node(a0, rc, Some(cur), rt);
                        lemma_min_props(rt);
                        assert(idxs(lt).disjoint(idxs(rt)));
                        assert(delete_t(t, val) == (Shape::Node {
                            idx: min_idx(rt),
                            val: min_val(rt),
                            left: Box::new(lt),
                            right: Box::new(drop_min(rt)),
                        }));
                    }
                    let (mi, nl) = Self::remove_min_at(a, rc, Ghost(rt), Ghost(Some(cur)));
                    let ghost a1 = a@;
                    let ghost dm = drop_min(rt);
                    proof {
                        assert(idxs(rt).contains(mi));
                        assert(!idxs(lt).contains(mi));
                        assert(idxs(dm) == idxs(rt).remove(mi));
                        assert forall|i: usize| #[trigger] idxs(lt).contains(i) implies i
                            < a0.len() && i < a1.len() && a1[i as int] == a0[i as int] by {
                            assert(idxs(lt).union(idxs(rt)).contains(i));
                            assert(idxs(t).contains(i));
                            assert(!idxs(rt).contains(i));
                        }
                        lemma_rep_frame(a0, a1, a0[cur as int].left, Some(cur), lt);
                    }
                    a[mi].left = Some(lc);
                    a[mi].right = nl;
                    let ghost a3 = a@;
                    proof {
                        // the remaining right subtree and the left subtree
                        // survive the rewrite of the successor's links
                        assert(a3[mi as int].idx == mi);
                        assert(a3[mi as int].val == min_val(rt));
                        match dm {
                            Shape::Empty => {},
                            Shape::Node { .. } => {
                                let x = root_of(dm);
                                assert(rep(a1, nl, a1[x as int].parent, dm));
                                assert(idxs(dm).contains(x));
                                assert forall|i: usize| #[trigger] idxs(dm).contains(i) implies i
                                    < a1.len() && i < a3.len() && a3[i as int] == a1[i as int] by {
                                    assert(idxs(rt).contains(i));
                                    assert(idxs(lt).union(idxs(rt)).contains(i));
                                    assert(idxs(t).contains(i));
                                    assert(i != mi);
                                }
                                lemma_rep_frame(a1, a3, nl, a1[x as int].parent, dm);
                            },
                        }
                        assert forall|i: usize| #[trigger] idxs(lt).contains(i) implies i
                            < a1.len() && i < a3.len() && a3[i as int] == a1[i as int] by {
                            assert(idxs(lt).union(idxs(rt)).contains(i));
                            assert(idxs(t).contains(i));
                            assert(!idxs(rt).contains(i));
                            assert(i != mi);
                        }
                        lemma_rep_frame(a1, a3, a0[cur as int].left, Some(cur), lt);
                    }
                    match nl {
                        None => {
                            proof {
                                assert(dm is Empty) by {
                                    match dm {
                                        Shape::Empty => {},
                                        Shape::Node { .. } => {
                                            assert(rep(a1, None, a1[root_of(dm) as int].parent, dm));
                                            assert(false);
                                        },
                                    }
                                }
                            }
                        },
                        Some(x) => {
                            proof {
                                assert(dm is Node) by {
                                    if dm is Empty {
                                        assert(rep_at(a1, Some(x), dm));
                                    }
                                }
                                assert(root_of(dm) == x);
                                assert(x < a@.len());
                            }
                            a[x].parent = Some(mi);
                            proof {
                                let a4 = a@;
                                assert(idxs(dm).contains(x));
                                assert(x != mi);
                                assert(rep(a3, Some(x), a1[x as int].parent, dm));
                                lemma_rep_reparent(a3, a4, x, a1[x as int].parent, Some(mi), dm);
                                assert forall|i: usize| #[trigger] idxs(lt).contains(i) implies i
                                    < a3.len() && i < a4.len() && a4[i as int] == a3[i as int] by {
                                    assert(idxs(lt).union(idxs(rt)).contains(i));
                                    assert(idxs(t).contains(i));
                                    assert(!idxs(rt).contains(i));
                                    assert(idxs(rt).contains(x));
                                    assert(i != x);
                                }
                                lemma_rep_frame(a3, a4, a0[cur as int].left, Some(cur), lt);
                            }
                        },
                    }
                    let ghost a4 = a@;
                    proof {
                        assert(lc < a@.len()) by {
                            assert(idxs(lt).contains(lc));
                            assert(idxs(lt).union(idxs(rt)).contains(lc));
                            assert(idxs(t).contains(lc));
                        }
                    }
                    a[lc].parent = Some(mi);
                    proof {
                        let a5 = a@;
                        let d = delete_t(t, val);
                        assert(rep(a4, Some(lc), Some(cur), lt));
                        lemma_rep_reparent(a4, a5, lc, Some(cur), Some(mi), lt);
                        assert(lc != mi);
                        match dm {
                            Shape::Empty => {},
                            Shape::Node { .. } => {
                                let x = root_of(dm);
                                assert(rep(a4, nl, Some(mi), dm));
                                assert forall|i: usize| #[trigger] idxs(dm).contains(i) implies i
                                    < a4.len() && i < a5.len() && a5[i as int] == a4[i as int] by {
                                    assert(idxs(rt).contains(i));
                                    assert(idxs(lt).union(idxs(rt)).contains(i));
                                    assert(idxs(t).contains(i));
                                    assert(!idxs(lt).contains(i));
                                    assert(idxs(lt).contains(lc));
                                    assert(i != lc);
                                }
                                lemma_rep_frame(a4, a5, nl, Some(mi), dm);
                            },
                        }
                        assert(a5[mi as int].idx == mi);
                        assert(a5[mi as int].val == min_val(rt));
                        assert(a5[mi as int].left == Some(lc));
                        assert(a5[mi as int].right == nl);
                        assert(rep(a5, Some(lc), Some(mi), lt));
                        assert(rep(a5, nl, Some(mi), dm));
                        assert(rep(a5, Some(mi), a5[mi as int].parent, d));
                        assert(rep_at(a5, Some(mi), d));
                        assert(vals(t).contains(val));
                        assert forall|j: usize|
                            j < a0.len() && !(#[trigger] idxs(t).contains(j)) implies a@[j as int]
                            == a0[j as int] by {
                            assert(!idxs(rt).contains(j));
                            assert(!idxs(lt).contains(j));
                            assert(j != mi);
                            assert(j != lc);
                            if idxs(dm).contains(j) {
                                assert(idxs(rt).contains(j));
                            }
                        }
                    }
                    (true, Some(mi))
                },
            }
        }
    }

    /// Deletes `val`: `false` (and no mutation) when it is absent, else
    /// unlinks the node holding it and returns `true`.  The unlinked node's
    /// slot stays in the store — unless it was the only reachable node, in
    /// which case the whole store is cleared.
    pub fn delete(&mut self, val: i64) -> (found: bool)
        requires
            old(self).wf(),
        ensures
            final(self).wf(),
            found == old(self).values().contains(val),
            !found ==> final(self).arena@ == old(self).arena@ && final(self).root_id == old(
                self,
            ).root_id && final(self).shape() == old(self).shape(),
            found ==> final(self).shape() == delete_t(old(self).shape(), val),
            final(self).values() == old(self).values().remove(val),
            found && delete_t(old(self).shape(), val) is Empty ==> final(self).arena@.len() == 0,
            found && !(delete_t(old(self).shape(), val) is Empty) ==> final(self).arena@.len()
                == old(self).arena@.len(),
    {
        if self.arena.len() == 0 {
            proof {
                assert(vals(self.shape()) =~= Set::<i64>::empty());
                assert(vals(self.shape()).remove(val) =~= vals(self.shape()));
            }
            return false;
        }
        let ghost t0 = self.shape();
        let root = self.root_id;
        let (found, nl) = Self::delete_at(&mut self.arena, root, val, Ghost(t0), Ghost(None::<usize>));
        proof {
            lemma_delete_props(t0, val);
        }
        if found {
            match nl {
                None => {
                    proof {
                        assert(delete_t(t0, val) is Empty) by {
                            match delete_t(t0, val) {
                                Shape::Empty => {},
                                Shape::Node { .. } => {
                                    assert(rep(
                                        self.arena@,
                                        None,
                                        self.arena@[root_of(delete_t(t0, val)) as int].parent,
                                        delete_t(t0, val),
                                    ));
                                    assert(false);
                                },
                            }
                        }
                    }
                    self.arena.clear();
                    self.tree = Ghost(Shape::Empty);
                    proof {
                        assert(vals(Shape::Empty) =~= Set::<i64>::empty());
                        assert(vals(self.shape()) == vals(t0).remove(val));
                    }
                },
                Some(x) => {
                    let ghost d = delete_t(t0, val);
                    proof {
                        assert(d is Node) by {
                            if d is Empty {
                                assert(rep_at(self.arena@, Some(x), d));
                            }
                        }
                        assert(root_of(d) == x);
                        assert(x < self.arena@.len());
                        assert(rep(self.arena@, Some(x), self.arena@[x as int].parent, d));
                    }
                    let ghost a1 = self.arena@;
                    self.arena[x].parent = None;
                    self.root_id = x;
                    self.tree = Ghost(d);
                    proof {
                        lemma_rep_reparent(
                            a1,
                            self.arena@,
                            x,
                            a1[x as int].parent,
                            None::<usize>,
                            d,
                        );
                        assert(rep(self.arena@, Some(self.root_id), None::<usize>, self.shape()));
                        assert(self.arena@.len() > 0);
                    }
                },
            }
        }
        found
    }

    /// Appends to `path` the values of the subtree realised at `link`, in the
    /// depth-first order `typ`.
    fn dfs_collect(
        &self,
        typ: &Traversal,
        link: Option<usize>,
        path: &mut Vec<i64>,
        Ghost(t): Ghost<Shape>,
    )
        requires
            rep_at(self.arena@, link, t),
            !((*typ) is BFS),
        ensures
            final(path)@ == old(path)@ + dfs(t, *typ),
        decreases t,
    {
        match link {
            None => {
                proof {
                    assert(t is Empty) by {
                        match t {
                            Shape::Empty => {},
                            Shape::Node { .. } => {
                                assert(rep(
                                    self.arena@,
                                    None,
                                    self.arena@[root_of(t) as int].parent,
                                    t,
                                ));
                                assert(false);
                            },
                        }
                    }
                    assert(dfs(t, *typ) == Seq::<i64>::empty());
                    assert(path@ =~= path@ + dfs(t, *typ));
                }
            },
            Some(id) => {
                proof {
                    assert(t is Node) by {
                        if t is Empty {
                            assert(link is None);
                        }
                    }
                    assert(rep(self.arena@, Some(id), self.arena@[id as int].parent, t));
                    lemma_rep_node(self.arena@, id, self.arena@[id as int].parent, t);
                    match left_of(t) {
                        Shape::Empty => {},
                        _ => {
                            lemma_rep_to_rep_at(
                                self.arena@,
                                self.arena@[id as int].left,
                                Some(id),
                                left_of(t),
                            );
                        },
                    }
                    match right_of(t) {
                        Shape::Empty => {},
                        _ => {
                            lemma_rep_to_rep_at(
                                self.arena@,
                                self.arena@[id as int].right,
                                Some(id),
                                right_of(t),
                            );
                        },
                    }
                    assert(rep_at(self.arena@, self.arena@[id as int].left, left_of(t)));
                    assert(rep_at(self.arena@, self.arena@[id as int].right, right_of(t)));
                }
                let node = self.arena[id];
                let ghost n = seq![val_of(t)];
                let ghost l = dfs(left_of(t), *typ);
                let ghost r = dfs(right_of(t), *typ);
                match typ {
                    Traversal::NLR => {
                        path.push(node.val);
                        self.dfs_collect(typ, node.left, path, Ghost(left_of(t)));
                        self.dfs_collect(typ, node.right, path, Ghost(right_of(t)));
                        proof {
                            assert(dfs(t, *typ) == n + l + r);
                            assert(final(path)@ =~= old(path)@ + dfs(t, *typ));
                        }
                    },
                    Traversal::LNR => {
                        self.dfs_collect(typ, node.left, path, Ghost(left_of(t)));
                        path.push(node.val);
                        self.dfs_collect(typ, node.right, path, Ghost(right_of(t)));
                        proof {
                            assert(dfs(t, *typ) == l + n + r);
                            assert(final(path)@ =~= old(path)@ + dfs(t, *typ));
                        }
                    },
                    Traversal::LRN => {
                        self.dfs_collect(typ, node.left, path, Ghost(left_of(t)));
                        self.dfs_collect(typ, node.right, path, Ghost(right_of(t)));
                        path.push(node.val);
                        proof {
                            assert(dfs(t, *typ) == l + r + n);
                            assert(final(path)@ =~= old(path)@ + dfs(t, *typ));
                        }
                    },
                    Traversal::NRL => {
                        path.push(node.val);
                        self.dfs_collect(typ, node.right, path, Ghost(right_of(t)));
                        self.dfs_collect(typ, node.left, path, Ghost(left_of(t)));
                        proof {
                            assert(dfs(t, *typ) == n + r + l);
                            assert(final(path)@ =~= old(path)@ + dfs(t, *typ));
                        }
                    },
                    Traversal::RNL => {
                        self.dfs_collect(typ, node.right, path, Ghost(right_of(t)));
                        path.push(node.val);
                        self.dfs_collect(typ, node.left, path, Ghost(left_of(t)));
                        proof {
                            assert(dfs(t, *typ) == r + n + l);
                            assert(final(path)@ =~= old(path)@ + dfs(t, *typ));
                        }
                    },
                    Traversal::RLN => {
                        self.dfs_collect(typ, node.right, path, Ghost(right_of(t)));
                        self.dfs_collect(typ, node.left, path, Ghost(left_of(t)));
                        path.push(node.val);
                        proof {
                            assert(dfs(t, *typ) == r + l + n);
                            assert(final(path)@ =~= old(path)@ + dfs(t, *typ));
                        }
                    },
                    Traversal::BFS => {
                        proof {
                            assert(false);
                        }
                    },
                }
            },
        }
    }

    /// Appends to `path` the values reachable from the root in breadth-first
    /// order: a node's value when it leaves the queue, its present children
    /// enqueued left-then-right.
    #[verifier::loop_isolation(false)]
    fn bfs_collect(&self, path: &mut Vec<i64>)
        requires
            self.wf(),
            self.shape() is Node,
        ensures
            final(path)@ == old(path)@ + bfs_vals(seq![self.shape()]),
    {
        let ghost full = bfs_vals(seq![self.shape()]);
        let ghost p0 = old(path)@.len() as int;
        let mut q: Vec<usize> = Vec::new();
        q.push(self.root_id);
        let mut head: usize = 0;
        let ghost mut qt: Seq<Shape> = seq![self.shape()];
        proof {
            lemma_rep_to_rep_at(self.arena@, Some(self.root_id), None::<usize>, self.shape());
            assert(root_of(qt[0]) == self.root_id) by {
                lemma_rep_node(self.arena@, self.root_id, None::<usize>, self.shape());
            }
        }
        while head < q.len()
            invariant
                head <= q@.len(),
                qt.len() == q@.len() - head,
                forall|k: int|
                    0 <= k < qt.len() ==> (#[trigger] qt[k]) is Node && root_of(qt[k]) == q@[head
                        + k] && rep_at(self.arena@, Some(q@[head + k]), qt[k]),
                p0 <= path@.len(),
                path@.len() - p0 + bfs_vals(qt).len() == full.len(),
                bfs_vals(qt) == full.skip(path@.len() - p0),
                forall|k: int| 0 <= k < p0 ==> path@[k] == old(path)@[k],
                forall|k: int| p0 <= k < path@.len() ==> path@[k] == full[k - p0],
            decreases size_sum(qt),
        {
            let id = q[head];
            let ghost t0 = qt[0];
            proof {
                assert(rep_at(self.arena@, Some(id), t0));
                assert(rep(self.arena@, Some(id), self.arena@[id as int].parent, t0));
                lemma_rep_node(self.arena@, id, self.arena@[id as int].parent, t0);
            }
            head = head + 1;
            let node = self.arena[id];
            let ghost e = path@.len() - p0;
            path.push(node.val);
            let ghost q1 = q@;
            if let Some(lc) = node.left {
                q.push(lc);
            }
            if let Some(rc) = node.right {
                q.push(rc);
            }
            proof {
                let lt = left_of(t0);
                let rt = right_of(t0);
                let qts = qt.skip(1);
                let qn = bfs_next(qts, lt, rt);
                assert(size_sum(qt) == t_size(t0) + size_sum(qts));
                match lt {
                    Shape::Empty => {},
                    _ => {
                        lemma_size_sum_push(qts, lt);
                    },
                }
                match rt {
                    Shape::Empty => {},
                    _ => {
                        match lt {
                            Shape::Empty => {
                                lemma_size_sum_push(qts, rt);
                            },
                            _ => {
                                lemma_size_sum_push(qts.push(lt), rt);
                            },
                        }
                    },
                }
                assert(size_sum(qn) < size_sum(qt));
                assert(bfs_vals(qt) == seq![val_of(t0)] + bfs_vals(qn));
                assert(full.skip(e)[0] == full[e]);
                assert(full[e] == val_of(t0));
                assert((seq![val_of(t0)] + bfs_vals(qn)).skip(1) =~= bfs_vals(qn));
                assert(full.skip(e).skip(1) =~= full.skip(e + 1));
                assert(bfs_vals(qn) == full.skip(e + 1));
                match lt {
                    Shape::Empty => {
                        assert(node.left is None);
                    },
                    _ => {
                        assert(self.arena@[id as int].left == Some(root_of(lt)));
                        lemma_rep_to_rep_at(
                            self.arena@,
                            self.arena@[id as int].left,
                            Some(id),
                            lt,
                        );
                    },
                }
                match rt {
                    Shape::Empty => {
                        assert(node.right is None);
                    },
                    _ => {
                        assert(self.arena@[id as int].right == Some(root_of(rt)));
                        lemma_rep_to_rep_at(
                            self.arena@,
                            self.arena@[id as int].right,
                            Some(id),
                            rt,
                        );
                    },
                }
                let qt_old = qt;
                qt = qn;
                assert forall|k: int|
                    0 <= k < qt.len() implies (#[trigger] qt[k]) is Node && root_of(qt[k])
                    == q@[head + k] && rep_at(self.arena@, Some(q@[head + k]), qt[k]) by {
                    if k < qts.len() {
                        assert(qt[k] == qt_old[k + 1]);
                        assert(q@[head + k] == q1[head + k]);
                        assert(q1[(head - 1) + (k + 1)] == q1[head + k]);
                    } else {
                        match lt {
                            Shape::Empty => {
                                assert(qt[k] == rt);
                                assert(q@[head + k] == root_of(rt));
                            },
                            _ => {
                                if k == qts.len() {
                                    assert(qt[k] == lt);
                                    assert(q@[head + k] == root_of(lt));
                                } else {
                                    assert(qt[k] == rt);
                                    assert(q@[head + k] == root_of(rt));
                                }
                            },
                        }
                    }
                }
            }
        }
        proof {
            assert(qt.len() == 0);
            assert(bfs_vals(qt) == Seq::<i64>::empty());
            assert(path@.len() - p0 == full.len());
            assert(path@ =~= old(path)@ + full);
        }
    }

    /// The values currently reachable from the root, in traversal order
    /// `typ`: a fresh sequence, leaving the tree untouched.
    pub fn traversal(&self, typ: &Traversal) -> (path: Vec<i64>)
        requires
            self.wf(),
        ensures
            path@ == visit(self.shape(), *typ),
    {
        let mut path: Vec<i64> = Vec::new();
        if self.arena.len() == 0 {
            proof {
                assert(self.shape() is Empty);
                assert(dfs(self.shape(), *typ) == Seq::<i64>::empty());
                assert(bfs_vals(seq![self.shape()]) == Seq::<i64>::empty()) by {
                    assert(seq![self.shape()].skip(1) =~= Seq::<Shape>::empty());
                    assert(bfs_vals(Seq::<Shape>::empty()) == Seq::<i64>::empty());
                }
                assert(path@ =~= visit(self.shape(), *typ));
            }
            return path;
        }
        match typ {
            Traversal::BFS => {
                self.bfs_collect(&mut path);
            },
            _ => {
                proof {
                    lemma_rep_to_rep_at(
                        self.arena@,
                        Some(self.root_id),
                        None::<usize>,
                        self.shape(),
                    );
                }
                self.dfs_collect(typ, Some(self.root_id), &mut path, Ghost(self.shape()));
            },
        }
        proof {
            assert(path@ =~= visit(self.shape(), *typ));
        }
        path
    }

    /// The values currently reachable from the root, in traversal order
    /// `typ`, with `f` applied to each visited value before it is appended.
    pub fn traversal_map<F: Fn(i64) -> i64>(&self, typ: &Traversal, f: F) -> (path: Vec<i64>)
        requires
            self.wf(),
            forall|x: i64| self.values().contains(x) ==> call_requires(f, (x,)),
        ensures
            path@.len() == visit(self.shape(), *typ).len(),
            forall|k: int|
                0 <= k < path@.len() ==> call_ensures(
                    f,
                    (visit(self.shape(), *typ)[k],),
                    #[trigger] path@[k],
                ),
    {
        let base = self.traversal(typ);
        proof {
            match typ {
                Traversal::BFS => {
                    lemma_bfs_in_set(seq![self.shape()], vals(self.shape()));
                },
                _ => {
                    lemma_dfs_in_vals(self.shape(), *typ);
                },
            }
            assert(forall|k: int|
                0 <= k < base@.len() ==> vals(self.shape()).contains(#[trigger] base@[k]));
        }
        let mut out: Vec<i64> = Vec::new();
        let mut i: usize = 0;
        while i < base.len()
            invariant
                i <= base@.len(),
                out@.len() == i,
                base@ == visit(self.shape(), *typ),
                forall|k: int| 0 <= k < base@.len() ==> vals(self.shape()).contains(
                    #[trigger] base@[k],
                ),
                forall|x: i64| self.values().contains(x) ==> call_requires(f, (x,)),
                forall|k: int|
                    0 <= k < i ==> call_ensures(f, (base@[k],), #[trigger] out@[k]),
            decreases base@.len() - i,
        {
            let v = base[i];
            proof {
                assert(vals(self.shape()).contains(v));
                assert(self.values().contains(v));
            }
            out.push(f(v));
            i = i + 1;
        }
        out
    }

    /// Builds a tree by inserting the elements of `v` in order into an empty
    /// tree, with the same semantics as repeated `insert` calls.
    pub fn from_vec(v: Vec<i64>) -> (t: Self)
        ensures
            t.wf(),
            t.shape() == build(v@),
            t.arena@.len() == t_size(build(v@)),
            t.values() == v@.to_set(),
    {
        let total: usize = v.len();
        proof {
            assert(v@.len() == total);
            lemma_build_props(v@);
        }
        let mut t = ArenaTree { arena: Vec::new(), root_id: 0, tree: Ghost(Shape::Empty) };
        let mut i: usize = 0;
        while i < v.len()
            invariant
                i <= v@.len(),
                t.wf(),
                t.shape() == build(v@.take(i as int)),
                t.arena@.len() == t_size(build(v@.take(i as int))),
            decreases v@.len() - i,
        {
            let ghost prefix = v@.take(i as int);
            let ghost t0 = t;
            let n0 = t.arena.len();
            proof {
                if t0.arena@.len() > 0 {
                    lemma_rep_bounds(t0.arena@, Some(t0.root_id), None::<usize>, t0.shape());
                } else {
                    assert(idxs(t0.shape()) =~= Set::<usize>::empty());
                }
                assert(!idxs(t0.shape()).contains(n0));
                lemma_insert_props(t0.shape(), v@[i as int], n0);
            }
            t.insert(v[i]);
            i = i + 1;
            proof {
                assert(v@.take(i as int).drop_last() =~= prefix);
                assert(v@.take(i as int).last() == v@[i - 1]);
                assert(t_size(build(prefix)) as usize == n0);
            }
        }
        proof {
            assert(v@.take(v@.len() as int) =~= v@);
        }
        t
    }
}

/// The ordering law at the tree level: for every well-formed tree — so for
/// every tree built by any sequence of inserts and deletes — the in-order
/// traversal (Left, Node, Right) yields its values in strictly increasing
/// order.
pub proof fn lemma_traversal_sorted(t: ArenaTree)
    requires
        t.wf(),
    ensures
        crate::traverse::sorted_strict(visit(t.shape(), Traversal::LNR)),
{
    crate::traverse::lemma_inorder_sorted(t.shape());
}

impl Default for ArenaTree {
    /// The empty tree.
    fn default() -> (t: Self)
        ensures
            t.wf(),
            t.arena@ == Seq::<Node>::empty(),
            t.shape() == Shape::Empty,
    {
        ArenaTree { root_id: 0, arena: Vec::new(), tree: Ghost(Shape::Empty) }
    }
}

} // verus!
