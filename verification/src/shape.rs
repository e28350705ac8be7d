//! The mathematical model of the tree.
//!
//! A `Shape` is the part of the arena that is reachable from the root,
//! written as an ordinary recursive tree: each node carries the arena index
//! of its slot and the value stored there.  The executable operations are
//! specified by pure functions on shapes (`insert_t`, `delete_t`, `locate`),
//! so every contract pins down the exact tree that an operation produces.

use vstd::prelude::*;

verus! {

/// The reachable part of the tree, with each node's arena index and value.
pub enum Shape {
    Empty,
    Node { idx: usize, val: i64, left: Box<Shape>, right: Box<Shape> },
}

/// The left subtree of `t` (empty for an empty tree).
pub open spec fn left_of(t: Shape) -> Shape {
    match t {
        Shape::Empty => Shape::Empty,
        Shape::Node { left, .. } => *left,
    }
}

/// The right subtree of `t` (empty for an empty tree).
pub open spec fn right_of(t: Shape) -> Shape {
    match t {
        Shape::Empty => Shape::Empty,
        Shape::Node { right, .. } => *right,
    }
}

/// The value at the root of `t` (zero for an empty tree).
pub open spec fn val_of(t: Shape) -> i64 {
    match t {
        Shape::Empty => 0,
        Shape::Node { val, .. } => val,
    }
}

/// The arena index of the root of `t` (zero for an empty tree).
pub open spec fn root_of(t: Shape) -> usize {
    match t {
        Shape::Empty => 0,
        Shape::Node { idx, .. } => idx,
    }
}

/// The number of nodes in `t`.
pub open spec fn t_size(t: Shape) -> nat
    decreases t,
{
    match t {
        Shape::Empty => 0,
        Shape::Node { left, right, .. } => 1 + t_size(*left) + t_size(*right),
    }
}

/// The set of values held by the nodes of `t`.
pub open spec fn vals(t: Shape) -> Set<i64>
    decreases t,
{
    match t {
        Shape::Empty => Set::empty(),
        Shape::Node { val, left, right, .. } => vals(*left).union(vals(*right)).insert(val),
    }
}

/// The set of arena indices held by the nodes of `t`.
pub open spec fn idxs(t: Shape) -> Set<usize>
    decreases t,
{
    match t {
        Shape::Empty => Set::empty(),
        Shape::Node { idx, left, right, .. } => idxs(*left).union(idxs(*right)).insert(idx),
    }
}

/// Binary-search-tree ordering: at every node, all values to the left are
/// smaller and all values to the right are greater.
pub open spec fn ordered(t: Shape) -> bool
    decreases t,
{
    match t {
        Shape::Empty => true,
        Shape::Node { val, left, right, .. } => {
            &&& ordered(*left)
            &&& ordered(*right)
            &&& forall|x: i64| vals(*left).contains(x) ==> x < val
            &&& forall|x: i64| vals(*right).contains(x) ==> x > val
        },
    }
}

/// Every arena index occurs at most once in `t`.
pub open spec fn distinct_idxs(t: Shape) -> bool
    decreases t,
{
    match t {
        Shape::Empty => true,
        Shape::Node { idx, left, right, .. } => {
            &&& distinct_idxs(*left)
            &&& distinct_idxs(*right)
            &&& !idxs(*left).contains(idx)
            &&& !idxs(*right).contains(idx)
            &&& idxs(*left).disjoint(idxs(*right))
        },
    }
}

/// The shape after inserting value `v` into `t`, with `n` as the index of the
/// slot a new node would occupy.  Inserting a value that is already present
/// leaves the shape unchanged.
pub open spec fn insert_t(t: Shape, v: i64, n: usize) -> Shape
    decreases t,
{
    match t {
        Shape::Empty => Shape::Node {
            idx: n,
            val: v,
            left: Box::new(Shape::Empty),
            right: Box::new(Shape::Empty),
        },
        Shape::Node { idx, val, left, right } => {
            if v < val {
                Shape::Node { idx, val, left: Box::new(insert_t(*left, v, n)), right }
            } else if v > val {
                Shape::Node { idx, val, left, right: Box::new(insert_t(*right, v, n)) }
            } else {
                Shape::Node { idx, val, left, right }
            }
        },
    }
}

/// The index of the node of `t` holding value `v`, following the search path.
pub open spec fn idx_of(t: Shape, v: i64) -> usize
    decreases t,
{
    match t {
        Shape::Empty => 0,
        Shape::Node { idx, val, left, right } => {
            if v == val {
                idx
            } else if v < val {
                idx_of(*left, v)
            } else {
                idx_of(*right, v)
            }
        },
    }
}

/// The smallest value in `t` (meaningful when `t` is ordered and non-empty).
pub open spec fn min_val(t: Shape) -> i64
    decreases t,
{
    match t {
        Shape::Empty => 0,
        Shape::Node { val, left, .. } => {
            match *left {
                Shape::Empty => val,
                _ => min_val(*left),
            }
        },
    }
}

/// The arena index of the leftmost node of `t`.
pub open spec fn min_idx(t: Shape) -> usize
    decreases t,
{
    match t {
        Shape::Empty => 0,
        Shape::Node { idx, left, .. } => {
            match *left {
                Shape::Empty => idx,
                _ => min_idx(*left),
            }
        },
    }
}

/// The shape after removing the leftmost node of `t`: that node's right
/// subtree takes its place.
pub open spec fn drop_min(t: Shape) -> Shape
    decreases t,
{
    match t {
        Shape::Empty => Shape::Empty,
        Shape::Node { idx, val, left, right } => {
            match *left {
                Shape::Empty => *right,
                _ => Shape::Node { idx, val, left: Box::new(drop_min(*left)), right },
            }
        },
    }
}

/// The shape after deleting value `v` from `t`.  A node with two children is
/// replaced by its in-order successor: the leftmost node of the right
/// subtree, which keeps its own arena index and whose former right subtree
/// takes its old place.
pub open spec fn delete_t(t: Shape, v: i64) -> Shape
    decreases t,
{
    match t {
        Shape::Empty => Shape::Empty,
        Shape::Node { idx, val, left, right } => {
            if v < val {
                Shape::Node { idx, val, left: Box::new(delete_t(*left, v)), right }
            } else if v > val {
                Shape::Node { idx, val, left, right: Box::new(delete_t(*right, v)) }
            } else {
                match (*left, *right) {
                    (Shape::Empty, r) => r,
                    (l, Shape::Empty) => l,
                    (l, r) => Shape::Node {
                        idx: min_idx(r),
                        val: min_val(r),
                        left: Box::new(l),
                        right: Box::new(drop_min(r)),
                    },
                }
            }
        },
    }
}

/// Where a search for `v` through `t` ends, in the dual-purpose form of the
/// tree's `search_parent`: descending from the root, a missing child on the
/// search path reports the would-be parent and side (`true` for left); a node
/// holding `v` reports what was passed down as `up` — the node's parent and
/// side, or `None` at the root of the whole descent.
pub open spec fn locate(t: Shape, v: i64, up: Option<(usize, bool)>) -> Option<(usize, bool)>
    decreases t,
{
    match t {
        Shape::Empty => None,
        Shape::Node { idx, val, left, right } => {
            if v < val {
                match *left {
                    Shape::Empty => Some((idx, true)),
                    _ => locate(*left, v, Some((idx, true))),
                }
            } else if v > val {
                match *right {
                    Shape::Empty => Some((idx, false)),
                    _ => locate(*right, v, Some((idx, false))),
                }
            } else {
                up
            }
        },
    }
}

/// The subtree of `t` rooted at the node with arena index `id` (empty when no
/// node of `t` has that index).
pub open spec fn sub_at(t: Shape, id: usize) -> Shape
    decreases t,
{
    match t {
        Shape::Empty => Shape::Empty,
        Shape::Node { idx, left, right, .. } => {
            if idx == id {
                t
            } else if idxs(*left).contains(id) {
                sub_at(*left, id)
            } else {
                sub_at(*right, id)
            }
        },
    }
}

/// What insertion does to the model, stated for every tree and value.
///
/// Together with `insert`'s contract this gives idempotence and the
/// insert/search round trip: the values grow by exactly the inserted value;
/// a repeated insertion leaves the shape unchanged; and the inserted value is
/// afterwards found at the new slot `n` (or, when it was already present, at
/// the index it already had).
pub proof fn lemma_insert_props(t: Shape, v: i64, n: usize)
    requires
        ordered(t),
        distinct_idxs(t),
        !idxs(t).contains(n),
    ensures
        vals(insert_t(t, v, n)) == vals(t).insert(v),
        idxs(insert_t(t, v, n)) == (if vals(t).contains(v) {
            idxs(t)
        } else {
            idxs(t).insert(n)
        }),
        ordered(insert_t(t, v, n)),
        distinct_idxs(insert_t(t, v, n)),
        idx_of(insert_t(t, v, n), v) == (if vals(t).contains(v) {
            idx_of(t, v)
        } else {
            n
        }),
        t_size(insert_t(t, v, n)) == (if vals(t).contains(v) {
            t_size(t)
        } else {
            t_size(t) + 1
        }),
        vals(t).contains(v) ==> insert_t(t, v, n) == t,
    decreases t,
{
    match t {
        Shape::Empty => {
            assert(vals(insert_t(t, v, n)) =~= vals(t).insert(v));
            assert(idxs(insert_t(t, v, n)) =~= idxs(t).insert(n));
        },
        Shape::Node { idx, val, left, right } => {
            assert(idxs(t).contains(idx));
            assert(forall|i: usize|
                idxs(*left).contains(i) ==> #[trigger] idxs(t).contains(i));
            assert(forall|i: usize|
                idxs(*right).contains(i) ==> #[trigger] idxs(t).contains(i));
            assert(forall|x: i64|
                vals(*left).contains(x) ==> #[trigger] vals(t).contains(x));
            assert(forall|x: i64|
                vals(*right).contains(x) ==> #[trigger] vals(t).contains(x));
            assert(vals(t).contains(val));
            if v < val {
                lemma_insert_props(*left, v, n);
                assert(!vals(*right).contains(v));
                assert(vals(t).contains(v) == vals(*left).contains(v));
                let t2 = insert_t(t, v, n);
                assert(t2 == (Shape::Node {
                    idx,
                    val,
                    left: Box::new(insert_t(*left, v, n)),
                    right,
                }));
                assert(vals(t2) =~= vals(t).insert(v));
                if vals(t).contains(v) {
                    assert(idxs(t2) =~= idxs(t));
                } else {
                    assert(idxs(t2) =~= idxs(t).insert(n));
                }
            } else if v > val {
                lemma_insert_props(*right, v, n);
                assert(!vals(*left).contains(v));
                assert(vals(t).contains(v) == vals(*right).contains(v));
                let t2 = insert_t(t, v, n);
                assert(vals(t2) =~= vals(t).insert(v));
                if vals(t).contains(v) {
                    assert(idxs(t2) =~= idxs(t));
                } else {
                    assert(idxs(t2) =~= idxs(t).insert(n));
                }
            } else {
                assert(insert_t(t, v, n) == t);
                assert(vals(insert_t(t, v, n)) =~= vals(t).insert(v));
            }
        },
    }
}

/// What removing the leftmost node does to the model: it takes out exactly
/// the smallest value and that node's index, and keeps the ordering.
pub proof fn lemma_min_props(t: Shape)
    requires
        ordered(t),
        distinct_idxs(t),
        t is Node,
    ensures
        vals(t).contains(min_val(t)),
        idxs(t).contains(min_idx(t)),
        forall|x: i64| #[trigger] vals(t).contains(x) ==> min_val(t) <= x,
        vals(drop_min(t)) == vals(t).remove(min_val(t)),
        idxs(drop_min(t)) == idxs(t).remove(min_idx(t)),
        ordered(drop_min(t)),
        distinct_idxs(drop_min(t)),
        forall|x: i64| #[trigger] vals(drop_min(t)).contains(x) ==> x > min_val(t),
    decreases t,
{
    match t {
        Shape::Empty => {},
        Shape::Node { idx, val, left, right } => {
            assert(vals(t).contains(val));
            assert(idxs(t).contains(idx));
            assert(forall|x: i64|
                vals(*left).contains(x) ==> #[trigger] vals(t).contains(x));
            assert(forall|x: i64|
                vals(*right).contains(x) ==> #[trigger] vals(t).contains(x));
            assert(forall|i: usize|
                idxs(*left).contains(i) ==> #[trigger] idxs(t).contains(i));
            assert(forall|i: usize|
                idxs(*right).contains(i) ==> #[trigger] idxs(t).contains(i));
            match *left {
                Shape::Empty => {
                    assert(min_val(t) == val && min_idx(t) == idx);
                    assert(drop_min(t) == *right);
                    assert(vals(*left) =~= Set::<i64>::empty());
                    assert(idxs(*left) =~= Set::<usize>::empty());
                    assert(vals(drop_min(t)) =~= vals(t).remove(val));
                    assert(idxs(drop_min(t)) =~= idxs(t).remove(idx));
                },
                _ => {
                    lemma_min_props(*left);
                    let m = min_val(*left);
                    let mi = min_idx(*left);
                    assert(vals(*left).contains(m));
                    assert(m < val);
                    assert(!vals(*right).contains(m));
                    let t2 = drop_min(t);
                    assert(t2 == (Shape::Node {
                        idx,
                        val,
                        left: Box::new(drop_min(*left)),
                        right,
                    }));
                    assert(vals(t2) =~= vals(t).remove(m));
                    assert(idxs(t2) =~= idxs(t).remove(mi));
                    assert(forall|x: i64|
                        vals(drop_min(*left)).contains(x) ==> #[trigger] vals(*left).contains(x));
                    assert(forall|i: usize|
                        idxs(drop_min(*left)).contains(i) ==> #[trigger] idxs(*left).contains(i));
                },
            }
        },
    }
}

/// What deletion does to the model, stated for every tree and value: exactly
/// the deleted value leaves the value set, no new index appears, the
/// binary-search ordering survives, and deleting an absent value changes
/// nothing.  Together with `delete`'s contract this gives the deletion law:
/// after a successful delete the value is no longer found, a second delete of
/// it reports absence, and the in-order traversal of what remains is still
/// sorted.
pub proof fn lemma_delete_props(t: Shape, v: i64)
    requires
        ordered(t),
        distinct_idxs(t),
    ensures
        vals(delete_t(t, v)) == vals(t).remove(v),
        forall|i: usize| #[trigger] idxs(delete_t(t, v)).contains(i) ==> idxs(t).contains(i),
        ordered(delete_t(t, v)),
        distinct_idxs(delete_t(t, v)),
        !vals(t).contains(v) ==> delete_t(t, v) == t,
    decreases t,
{
    match t {
        Shape::Empty => {
            assert(vals(delete_t(t, v)) =~= vals(t).remove(v));
        },
        Shape::Node { idx, val, left, right } => {
            assert(vals(t).contains(val));
            assert(idxs(t).contains(idx));
            assert(forall|x: i64|
                vals(*left).contains(x) ==> #[trigger] vals(t).contains(x));
            assert(forall|x: i64|
                vals(*right).contains(x) ==> #[trigger] vals(t).contains(x));
            assert(forall|i: usize|
                idxs(*left).contains(i) ==> #[trigger] idxs(t).contains(i));
            assert(forall|i: usize|
                idxs(*right).contains(i) ==> #[trigger] idxs(t).contains(i));
            assert(!vals(*left).contains(val));
            assert(!vals(*right).contains(val));
            if v < val {
                lemma_delete_props(*left, v);
                assert(!vals(*right).contains(v));
                let t2 = delete_t(t, v);
                assert(t2 == (Shape::Node {
                    idx,
                    val,
                    left: Box::new(delete_t(*left, v)),
                    right,
                }));
                assert(vals(t2) =~= vals(t).remove(v));
                assert forall|i: usize| #[trigger] idxs(t2).contains(i) implies idxs(t).contains(
                    i,
                ) by {
                    if i != idx {
                        assert(idxs(delete_t(*left, v)).union(idxs(*right)).contains(i));
                        if idxs(delete_t(*left, v)).contains(i) {
                            assert(idxs(*left).contains(i));
                        } else {
                            assert(idxs(*right).contains(i));
                        }
                    }
                }
                if !vals(t).contains(v) {
                    assert(delete_t(*left, v) == *left);
                    assert(t2 == t);
                }
            } else if v > val {
                lemma_delete_props(*right, v);
                assert(!vals(*left).contains(v));
                let t2 = delete_t(t, v);
                assert(t2 == (Shape::Node {
                    idx,
                    val,
                    left,
                    right: Box::new(delete_t(*right, v)),
                }));
                assert(vals(t2) =~= vals(t).remove(v));
                assert forall|i: usize| #[trigger] idxs(t2).contains(i) implies idxs(t).contains(
                    i,
                ) by {
                    if i != idx {
                        assert(idxs(*left).union(idxs(delete_t(*right, v))).contains(i));
                        if idxs(*left).contains(i) {
                        } else {
                            assert(idxs(delete_t(*right, v)).contains(i));
                            assert(idxs(*right).contains(i));
                        }
                    }
                }
                if !vals(t).contains(v) {
                    assert(delete_t(*right, v) == *right);
                    assert(t2 == t);
                }
            } else {
                match (*left, *right) {
                    (Shape::Empty, _) => {
                        assert(delete_t(t, v) == *right);
                        assert(vals(*left) =~= Set::<i64>::empty());
                        assert(vals(delete_t(t, v)) =~= vals(t).remove(v));
                    },
                    (_, Shape::Empty) => {
                        assert(delete_t(t, v) == *left);
                        assert(vals(*right) =~= Set::<i64>::empty());
                        assert(vals(delete_t(t, v)) =~= vals(t).remove(v));
                    },
                    (_, _) => {
                        lemma_min_props(*right);
                        let m = min_val(*right);
                        let mi = min_idx(*right);
                        assert(vals(*right).contains(m));
                        assert(idxs(*right).contains(mi));
                        assert(m > val);
                        assert(vals(drop_min(*right)) == vals(*right).remove(m));
                        assert(idxs(drop_min(*right)) == idxs(*right).remove(mi));
                        let t2 = delete_t(t, v);
                        assert(t2 == (Shape::Node {
                            idx: mi,
                            val: m,
                            left,
                            right: Box::new(drop_min(*right)),
                        }));
                        assert(vals(t2) == vals(*left).union(vals(drop_min(*right))).insert(m));
                        assert(vals(t2) =~= vals(t).remove(v));
                        assert(forall|x: i64|
                            vals(drop_min(*right)).contains(x) ==> #[trigger] vals(
                                *right,
                            ).contains(x));
                        assert(forall|x: i64| #[trigger] vals(*left).contains(x) ==> x < m);
                        assert(ordered(t2));
                        assert forall|i: usize| #[trigger] idxs(t2).contains(i) implies idxs(
                            t,
                        ).contains(i) by {
                            if i != mi {
                                assert(idxs(*left).union(idxs(drop_min(*right))).contains(i));
                                if idxs(*left).contains(i) {
                                } else {
                                    assert(idxs(drop_min(*right)).contains(i));
                                    assert(idxs(*right).contains(i));
                                }
                            }
                        }
                        assert(forall|i: usize|
                            idxs(drop_min(*right)).contains(i) ==> #[trigger] idxs(
                                *right,
                            ).contains(i));
                        assert(!idxs(drop_min(*right)).contains(mi));
                        assert(!idxs(*left).contains(mi));
                        assert(idxs(*left).disjoint(idxs(drop_min(*right))));
                        assert(distinct_idxs(t2));
                    },
                }
            }
        },
    }
}

/// The shape built by inserting the elements of `s` in order into an empty
/// tree, allocating arena slots consecutively; duplicates allocate nothing.
pub open spec fn build(s: Seq<i64>) -> Shape
    decreases s.len(),
{
    if s.len() == 0 {
        Shape::Empty
    } else {
        let t = build(s.drop_last());
        if vals(t).contains(s.last()) {
            t
        } else {
            insert_t(t, s.last(), t_size(t) as usize)
        }
    }
}

/// What bulk insertion builds: a tree with the binary-search ordering and
/// distinct indices below its size, holding exactly the elements of `s` —
/// so a search after `from_vec` finds precisely the inserted values.
pub proof fn lemma_build_props(s: Seq<i64>)
    requires
        s.len() <= usize::MAX,
    ensures
        vals(build(s)) == s.to_set(),
        ordered(build(s)),
        distinct_idxs(build(s)),
        forall|i: usize| #[trigger] idxs(build(s)).contains(i) ==> i < t_size(build(s)),
        t_size(build(s)) <= s.len(),
    decreases s.len(),
{
    if s.len() == 0 {
        assert forall|x: i64| s.to_set().contains(x) implies vals(build(s)).contains(x) by {
            assert(s.contains(x));
        }
        assert(vals(build(s)) =~= s.to_set());
    } else {
        let p = s.drop_last();
        let v = s.last();
        lemma_build_props(p);
        let t = build(p);
        let n = t_size(t) as usize;
        if vals(t).contains(v) {
            assert(build(s) == t);
        } else {
            assert(!idxs(t).contains(n));
            lemma_insert_props(t, v, n);
            assert(t_size(t) < usize::MAX) by {
                assert(t_size(t) <= p.len());
            }
            assert forall|i: usize| #[trigger] idxs(build(s)).contains(i) implies i < t_size(
                build(s),
            ) by {
                assert(idxs(build(s)) == idxs(t).insert(n));
                if i != n {
                    assert(idxs(t).contains(i));
                }
            }
        }
        assert forall|x: i64| s.to_set().contains(x) implies vals(build(s)).contains(x) by {
            assert(s.contains(x));
            let i = choose|i: int| 0 <= i < s.len() && s[i] == x;
            if i < s.len() - 1 {
                assert(p[i] == x);
                assert(p.contains(x));
                assert(p.to_set().contains(x));
                assert(vals(t).contains(x));
            } else {
                assert(x == v);
            }
        }
        assert forall|x: i64| vals(build(s)).contains(x) implies s.to_set().contains(x) by {
            if x == v {
                assert(s[s.len() - 1] == x);
                assert(s.contains(x));
            } else {
                assert(vals(t).contains(x));
                assert(p.to_set().contains(x));
                assert(p.contains(x));
                let i = choose|i: int| 0 <= i < p.len() && p[i] == x;
                assert(s[i] == x);
                assert(s.contains(x));
            }
        }
        assert(vals(build(s)) =~= s.to_set());
    }
}

} // verus!
