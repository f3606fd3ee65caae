//! The nodes of a region quadtree and the mathematical model of what they hold.

use vstd::prelude::*;

verus! {

/// The state of one node: an empty leaf, a full leaf, or four owned quadrants
/// (top-left, top-right, bottom-right, bottom-left).
pub enum Node<T> {
    Empty,
    Full(T),
    Subdivided(Box<QuadNode<T>>, Box<QuadNode<T>>, Box<QuadNode<T>>, Box<QuadNode<T>>),
}

/// One square region of the domain, with the observer attached to it, if any.
pub struct QuadNode<T> {
    pub node: Node<T>,
    pub observer: Option<u64>,
}

/// What a node holds, as seen from outside.
#[derive(Clone, Copy, Debug, PartialEq, Eq)]
pub enum Classification<T> {
    UniformEmpty,
    UniformFull(T),
    Subdivided,
}

/// The leaf that holds `v` over its whole region.
pub open spec fn leaf_of<T>(v: Option<T>) -> Node<T> {
    match v {
        Some(x) => Node::Full(x),
        None => Node::Empty,
    }
}

pub open spec fn classification_of<T>(n: Node<T>) -> Classification<T> {
    match n {
        Node::Empty => Classification::UniformEmpty,
        Node::Full(v) => Classification::UniformFull(v),
        Node::Subdivided(..) => Classification::Subdivided,
    }
}

/// Quadrant `i` of a subdivided node (indices above 3 fall on the last one).
pub open spec fn child<T>(n: Node<T>, i: int) -> QuadNode<T> {
    match n {
        Node::Subdivided(a, b, c, d) => if i == 0 {
            *a
        } else if i == 1 {
            *b
        } else if i == 2 {
            *c
        } else {
            *d
        },
        _ => arbitrary(),
    }
}

/// Four quadrants that are leaves in one and the same state.
pub open spec fn uniform<T>(a: QuadNode<T>, b: QuadNode<T>, c: QuadNode<T>, d: QuadNode<T>) -> bool {
    &&& !(a.node is Subdivided)
    &&& a.node == b.node
    &&& a.node == c.node
    &&& a.node == d.node
}

/// No subdivided node below (or at) `n` has four uniform quadrants.
pub open spec fn compressed<T>(n: QuadNode<T>) -> bool
    decreases n,
{
    match n.node {
        Node::Subdivided(a, b, c, d) => {
            &&& !uniform(*a, *b, *c, *d)
            &&& compressed(*a)
            &&& compressed(*b)
            &&& compressed(*c)
            &&& compressed(*d)
        },
        _ => true,
    }
}

/// `n` is subdivided at most `levels` times along any path.
pub open spec fn within_levels<T>(n: QuadNode<T>, levels: nat) -> bool
    decreases n,
{
    match n.node {
        Node::Subdivided(a, b, c, d) => {
            &&& levels > 0
            &&& within_levels(*a, (levels - 1) as nat)
            &&& within_levels(*b, (levels - 1) as nat)
            &&& within_levels(*c, (levels - 1) as nat)
            &&& within_levels(*d, (levels - 1) as nat)
        },
        _ => true,
    }
}

/// The node reached from `n` by following the quadrant indices of `p`.
pub open spec fn node_at<T>(n: QuadNode<T>, p: Seq<u8>) -> Option<QuadNode<T>>
    decreases p.len(),
{
    if p.len() == 0 {
        Some(n)
    } else if n.node is Subdivided && p[0] < 4 {
        node_at(child(n.node, p[0] as int), p.drop_first())
    } else {
        None
    }
}

/// What the region that `q` leads to holds: the first leaf on the way decides,
/// and a subdivided node at the end of `q` is mixed.
pub open spec fn region_at<T>(n: QuadNode<T>, q: Seq<u8>) -> Classification<T>
    decreases q.len(),
{
    match n.node {
        Node::Subdivided(..) => if q.len() == 0 {
            Classification::Subdivided
        } else {
            region_at(child(n.node, q[0] as int), q.drop_first())
        },
        _ => classification_of(n.node),
    }
}

/// Every step of `q` names one of the four quadrants.
pub open spec fn valid_path(q: Seq<u8>) -> bool {
    forall|i: int| 0 <= i < q.len() ==> q[i] < 4
}

/// A subdivided node with the given quadrants.
pub open spec fn subdivided<T>(
    a: QuadNode<T>,
    b: QuadNode<T>,
    c: QuadNode<T>,
    d: QuadNode<T>,
    observer: Option<u64>,
) -> QuadNode<T> {
    QuadNode {
        node: Node::Subdivided(Box::new(a), Box::new(b), Box::new(c), Box::new(d)),
        observer,
    }
}

/// `after` is `before` with the region that `p` leads to set to `value`: every
/// path into that region finds `value`, every path that does not meet it finds
/// what it found before (the ancestors of the region are left open).
pub open spec fn region_set<T>(before: QuadNode<T>, after: QuadNode<T>, p: Seq<u8>, value: Option<T>) -> bool {
    forall|q: Seq<u8>|
        valid_path(q) && !(q.len() < p.len() && q.is_prefix_of(p)) ==> region_at(after, q) == if p.is_prefix_of(q) {
            classification_of(leaf_of(value))
        } else {
            region_at(before, q)
        }
}

/// The observers of the nodes that `p` passes through, from `n` down to the node
/// that `p` leads to, inclusive.
pub open spec fn observers_along<T>(n: QuadNode<T>, p: Seq<u8>) -> Seq<Option<u64>>
    decreases p.len(),
{
    if p.len() == 0 {
        seq![n.observer]
    } else {
        seq![n.observer] + observers_along(child(n.node, p[0] as int), p.drop_first())
    }
}

/// A node after its whole region is set to `value`.
pub open spec fn fill<T>(n: QuadNode<T>, value: Option<T>) -> QuadNode<T> {
    QuadNode { node: leaf_of(value), observer: n.observer }
}

/// Whether setting the whole region of `n` to `value` changes anything.
pub open spec fn fill_changes<T>(n: QuadNode<T>, value: Option<T>) -> bool {
    n.node != leaf_of(value)
}

/// How far right quadrant `i` of a square starts, for quadrants of side `half`
/// (top-left, top-right, bottom-right, bottom-left).
pub open spec fn quadrant_dx(i: u8, half: int) -> int {
    if i == 1 || i == 2 {
        half
    } else {
        0
    }
}

/// How far down quadrant `i` of a square starts, for quadrants of side `half`.
pub open spec fn quadrant_dy(i: u8, half: int) -> int {
    if i == 2 || i == 3 {
        half
    } else {
        0
    }
}

/// The lower corner and side of the square that `p` leads to from the square
/// with lower corner `(x, y)` and side `side`.
pub open spec fn square_at(x: int, y: int, side: int, p: Seq<u8>) -> (int, int, int)
    decreases p.len(),
{
    if p.len() == 0 {
        (x, y, side)
    } else {
        let half = side / 2;
        square_at(
            x + quadrant_dx(p[0], half),
            y + quadrant_dy(p[0], half),
            half,
            p.drop_first(),
        )
    }
}

/// `n` with its quadrant `i` replaced by `x` (`n` is subdivided).
pub open spec fn with_child<T>(n: QuadNode<T>, i: int, x: QuadNode<T>) -> QuadNode<T> {
    subdivided(
        if i == 0 { x } else { child(n.node, 0) },
        if i == 1 { x } else { child(n.node, 1) },
        if i == 2 { x } else { child(n.node, 2) },
        if i == 3 { x } else { child(n.node, 3) },
        n.observer,
    )
}

/// `n` with the observer of the node that `p` leads to replaced by `observer`.
pub open spec fn with_observer<T>(n: QuadNode<T>, p: Seq<u8>, observer: Option<u64>) -> QuadNode<T>
    decreases p.len(),
{
    if p.len() == 0 {
        QuadNode { node: n.node, observer }
    } else {
        with_child(n, p[0] as int, with_observer(child(n.node, p[0] as int), p.drop_first(), observer))
    }
}

} // verus!
