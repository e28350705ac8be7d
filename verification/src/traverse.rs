//! Traversal orders and the sequences they produce.
//!
//! Six depth-first orders — every permutation of "emit the node / walk left /
//! walk right" — and one breadth-first order.  `dfs` and `bfs_vals` say, as
//! pure functions on shapes, exactly which sequence of values each order
//! yields; `visit` selects between them.

use vstd::prelude::*;
use crate::shape::Shape;
use crate::shape::t_size;
use crate::shape::vals;
use crate::shape::ordered;

verus! {

/// A traversal order: six depth-first permutations of
/// {Node, Left, Right}, and breadth-first.
pub enum Traversal {
    NLR,
    LNR,
    LRN,
    NRL,
    RNL,
    RLN,
    BFS,
}

/// The sequence of values a depth-first traversal of `t` emits under order
/// `o` (the empty sequence for the breadth-first order, which `bfs_vals`
/// covers).
pub open spec fn dfs(t: Shape, o: Traversal) -> Seq<i64>
    decreases t,
{
    match t {
        Shape::Empty => Seq::empty(),
        Shape::Node { val, left, right, .. } => {
            let n = seq![val];
            let l = dfs(*left, o);
            let r = dfs(*right, o);
            match o {
                Traversal::NLR => n + l + r,
                Traversal::LNR => l + n + r,
                Traversal::LRN => l + r + n,
                Traversal::NRL => n + r + l,
                Traversal::RNL => r + n + l,
                Traversal::RLN => r + l + n,
                Traversal::BFS => Seq::empty(),
            }
        },
    }
}

/// The total number of nodes in a queue of shapes.
pub open spec fn size_sum(q: Seq<Shape>) -> nat
    decreases q.len(),
{
    if q.len() == 0 {
        0
    } else {
        t_size(q[0]) + size_sum(q.skip(1))
    }
}

/// The queue `q` with the non-empty shapes among `l`, `r` appended:
/// what remains to visit after dequeuing a node with subtrees `l` and `r`.
pub open spec fn bfs_next(q: Seq<Shape>, l: Shape, r: Shape) -> Seq<Shape> {
    let q1 = match l {
        Shape::Empty => q,
        _ => q.push(l),
    };
    match r {
        Shape::Empty => q1,
        _ => q1.push(r),
    }
}

/// The sequence of values a breadth-first traversal emits, starting from the
/// queue `q`: the front shape's root value, then the rest of the queue with
/// the front's children enqueued left-then-right.
pub open spec fn bfs_vals(q: Seq<Shape>) -> Seq<i64>
    decreases size_sum(q), q.len(),
    via bfs_vals_decreases
{
    if q.len() == 0 {
        Seq::empty()
    } else {
        match q[0] {
            Shape::Empty => bfs_vals(q.skip(1)),
            Shape::Node { val, left, right, .. } => seq![val] + bfs_vals(
                bfs_next(q.skip(1), *left, *right),
            ),
        }
    }
}

/// Appending a shape to a queue adds its size to the queue's total size.
pub proof fn lemma_size_sum_push(q: Seq<Shape>, t: Shape)
    ensures
        size_sum(q.push(t)) == size_sum(q) + t_size(t),
    decreases q.len(),
{
    if q.len() == 0 {
        assert(q.push(t).skip(1) =~= Seq::<Shape>::empty());
        assert(size_sum(q.push(t).skip(1)) == 0);
        assert(size_sum(q.push(t)) == t_size(q.push(t)[0]) + size_sum(q.push(t).skip(1)));
        assert(q.push(t)[0] == t);
    } else {
        lemma_size_sum_push(q.skip(1), t);
        assert(q.push(t).skip(1) =~= q.skip(1).push(t));
        assert(q.push(t)[0] == q[0]);
        assert(size_sum(q.push(t)) == t_size(q.push(t)[0]) + size_sum(q.push(t).skip(1)));
        assert(size_sum(q) == t_size(q[0]) + size_sum(q.skip(1)));
    }
}

#[via_fn]
proof fn bfs_vals_decreases(q: Seq<Shape>) {
    if q.len() > 0 {
        match q[0] {
            Shape::Empty => {},
            Shape::Node { val, left, right, .. } => {
                match *left {
                    Shape::Empty => {},
                    _ => {
                        lemma_size_sum_push(q.skip(1), *left);
                    },
                }
                match *right {
                    Shape::Empty => {},
                    _ => {
                        match *left {
                            Shape::Empty => {
                                lemma_size_sum_push(q.skip(1), *right);
                            },
                            _ => {
                                lemma_size_sum_push(q.skip(1).push(*left), *right);
                            },
                        }
                    },
                }
            },
        }
    }
}

/// Every value a breadth-first traversal emits from queue `q` belongs to a
/// set that covers the values of every queued shape.
pub proof fn lemma_bfs_in_set(q: Seq<Shape>, s: Set<i64>)
    requires
        forall|j: int, x: i64|
            0 <= j < q.len() && #[trigger] vals(q[j]).contains(x) ==> s.contains(x),
    ensures
        forall|k: int| 0 <= k < bfs_vals(q).len() ==> s.contains(#[trigger] bfs_vals(q)[k]),
    decreases size_sum(q), q.len(),
{
    if q.len() == 0 {
    } else {
        match q[0] {
            Shape::Empty => {
                assert(forall|j: int| 0 <= j < q.skip(1).len() ==> q.skip(1)[j] == q[j + 1]);
                lemma_bfs_in_set(q.skip(1), s);
                assert(bfs_vals(q) == bfs_vals(q.skip(1)));
            },
            Shape::Node { val, left, right, .. } => {
                let q2 = bfs_next(q.skip(1), *left, *right);
                assert(vals(q[0]).contains(val));
                assert(forall|x: i64|
                    #[trigger] vals(*left).contains(x) ==> vals(q[0]).contains(x));
                assert(forall|x: i64|
                    #[trigger] vals(*right).contains(x) ==> vals(q[0]).contains(x));
                assert(forall|j: int| 0 <= j < q.skip(1).len() ==> q.skip(1)[j] == q[j + 1]);
                assert forall|j: int, x: i64|
                    0 <= j < q2.len() && #[trigger] vals(q2[j]).contains(x) implies s.contains(
                    x,
                ) by {
                    if j < q.skip(1).len() {
                        assert(q2[j] == q[j + 1]);
                    } else {
                        assert(vals(q2[j]).contains(x) ==> vals(q[0]).contains(x));
                    }
                }
                match *left {
                    Shape::Empty => {},
                    _ => {
                        lemma_size_sum_push(q.skip(1), *left);
                    },
                }
                match *right {
                    Shape::Empty => {},
                    _ => {
                        match *left {
                            Shape::Empty => {
                                lemma_size_sum_push(q.skip(1), *right);
                            },
                            _ => {
                                lemma_size_sum_push(q.skip(1).push(*left), *right);
                            },
                        }
                    },
                }
                lemma_bfs_in_set(q2, s);
                assert(bfs_vals(q) == seq![val] + bfs_vals(q2));
                assert forall|k: int| 0 <= k < bfs_vals(q).len() implies s.contains(
                    #[trigger] bfs_vals(q)[k],
                ) by {
                    if k == 0 {
                        assert(bfs_vals(q)[0] == val);
                    } else {
                        assert(bfs_vals(q)[k] == bfs_vals(q2)[k - 1]);
                    }
                }
            },
        }
    }
}

/// The sequence of values that a traversal of `t` in order `o` emits.
pub open spec fn visit(t: Shape, o: Traversal) -> Seq<i64> {
    match o {
        Traversal::BFS => bfs_vals(seq![t]),
        _ => dfs(t, o),
    }
}

/// Strictly increasing order on a sequence.
pub open spec fn sorted_strict(s: Seq<i64>) -> bool {
    forall|i: int, j: int| 0 <= i < j < s.len() ==> s[i] < s[j]
}

/// Every value a depth-first traversal emits is a value of the tree.
pub proof fn lemma_dfs_in_vals(t: Shape, o: Traversal)
    ensures
        forall|k: int| 0 <= k < dfs(t, o).len() ==> vals(t).contains(#[trigger] dfs(t, o)[k]),
    decreases t,
{
    match t {
        Shape::Empty => {},
        Shape::Node { val, left, right, .. } => {
            lemma_dfs_in_vals(*left, o);
            lemma_dfs_in_vals(*right, o);
            assert forall|k: int| 0 <= k < dfs(t, o).len() implies vals(t).contains(
                #[trigger] dfs(t, o)[k],
            ) by {
                let n = seq![val];
                let l = dfs(*left, o);
                let r = dfs(*right, o);
                assert(vals(t).contains(val));
                assert(forall|x: i64| vals(*left).contains(x) ==> vals(t).contains(x));
                assert(forall|x: i64| vals(*right).contains(x) ==> vals(t).contains(x));
                match o {
                    Traversal::NLR => assert(dfs(t, o) == n + l + r),
                    Traversal::LNR => assert(dfs(t, o) == l + n + r),
                    Traversal::LRN => assert(dfs(t, o) == l + r + n),
                    Traversal::NRL => assert(dfs(t, o) == n + r + l),
                    Traversal::RNL => assert(dfs(t, o) == r + n + l),
                    Traversal::RLN => assert(dfs(t, o) == r + l + n),
                    Traversal::BFS => assert(dfs(t, o) == Seq::<i64>::empty()),
                }
            }
        },
    }
}

/// The ordering law: an in-order traversal (Left, Node, Right) of a tree with
/// the binary-search ordering yields its values in strictly increasing order.
pub proof fn lemma_inorder_sorted(t: Shape)
    requires
        ordered(t),
    ensures
        sorted_strict(dfs(t, Traversal::LNR)),
    decreases t,
{
    match t {
        Shape::Empty => {},
        Shape::Node { val, left, right, .. } => {
            lemma_inorder_sorted(*left);
            lemma_inorder_sorted(*right);
            lemma_dfs_in_vals(*left, Traversal::LNR);
            lemma_dfs_in_vals(*right, Traversal::LNR);
            let l = dfs(*left, Traversal::LNR);
            let n = seq![val];
            let r = dfs(*right, Traversal::LNR);
            let s = dfs(t, Traversal::LNR);
            assert(s == l + n + r);
            assert forall|i: int, j: int| 0 <= i < j < s.len() implies s[i] < s[j] by {
                if j < l.len() {
                    assert(s[i] == l[i] && s[j] == l[j]);
                } else if j == l.len() {
                    assert(s[i] == l[i] && s[j] == val);
                } else {
                    assert(s[j] == r[j - l.len() - 1]);
                    if i < l.len() {
                        assert(s[i] == l[i]);
                        assert(s[i] < val && val < s[j]);
                    } else if i == l.len() {
                        assert(s[i] == val);
                    } else {
                        assert(s[i] == r[i - l.len() - 1]);
                    }
                }
            }
        },
    }
}

} // verus!
