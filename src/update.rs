//! Updates of a subtree: setting regions, subdividing, merging, and lookups.

use vstd::prelude::*;
use vstd::laws_eq::obeys_concrete_eq;
use crate::events::{EventType, Notification, log_view, notices, deliver};
use crate::node::{
    Classification,
    Node,
    QuadNode,
    child,
    classification_of,
    compressed,
    fill,
    leaf_of,
    node_at,
    observers_along,
    region_at,
    region_set,
    subdivided,
    uniform,
    valid_path,
    with_observer,
    within_levels,
};

verus! {

/// The event of a leaf that changes from `old` to the leaf of `value`, if it changes.
pub open spec fn leaf_event<T>(old: Node<T>, value: Option<T>) -> Option<EventType> {
    match old {
        Node::Empty => if value is Some {
            Some(EventType::Added)
        } else {
            None
        },
        Node::Full(x) => match value {
            None => Some(EventType::Removing),
            Some(y) => if x == y {
                None
            } else {
                Some(EventType::Changed)
            },
        },
        Node::Subdivided(..) => None,
    }
}

/// The event of a subdivided node whose quadrants merge into the leaf `leaf`.
pub open spec fn merge_event<T>(leaf: Node<T>) -> EventType {
    if leaf is Full {
        EventType::Added
    } else {
        EventType::Changed
    }
}

/// Quadrant `i` of `n` when it is subdivided: its own, or else a leaf in the state
/// of `n` without an observer.
pub open spec fn quadrant<T>(n: QuadNode<T>, i: int) -> QuadNode<T> {
    if n.node is Subdivided {
        child(n.node, i)
    } else {
        QuadNode { node: n.node, observer: None }
    }
}

/// Four quadrants under a node, merged into one leaf when they are uniform.
pub open spec fn merged<T>(
    a: QuadNode<T>,
    b: QuadNode<T>,
    c: QuadNode<T>,
    d: QuadNode<T>,
    observer: Option<u64>,
) -> QuadNode<T> {
    if uniform(a, b, c, d) {
        QuadNode { node: a.node, observer }
    } else {
        subdivided(a, b, c, d, observer)
    }
}

/// What merging four quadrants delivers at their node: one event when they merge.
pub open spec fn merge_notices<T>(
    a: QuadNode<T>,
    b: QuadNode<T>,
    c: QuadNode<T>,
    d: QuadNode<T>,
    chain: Seq<Option<u64>>,
    path: Seq<u8>,
) -> Seq<(u64, EventType, Seq<u8>)> {
    if uniform(a, b, c, d) {
        notices(chain, merge_event(a.node), path)
    } else {
        seq![]
    }
}

/// `n` with quadrant `i` of it replaced by `x`, all four then merged if uniform.
pub open spec fn with_quadrant<T>(n: QuadNode<T>, i: int, x: QuadNode<T>) -> QuadNode<T> {
    merged(
        if i == 0 { x } else { quadrant(n, 0) },
        if i == 1 { x } else { quadrant(n, 1) },
        if i == 2 { x } else { quadrant(n, 2) },
        if i == 3 { x } else { quadrant(n, 3) },
        n.observer,
    )
}

/// The node that setting the region that `p` leads to from `n` to `value` leaves:
/// a leaf that already holds `value` stays; otherwise the node is subdivided if it
/// is a leaf, the quadrant on the way is set, and the quadrants merge if uniform.
pub open spec fn set_region<T>(n: QuadNode<T>, p: Seq<u8>, value: Option<T>) -> QuadNode<T>
    decreases p.len(),
{
    if p.len() == 0 {
        fill(n, value)
    } else if n.node == leaf_of(value) {
        n
    } else {
        with_quadrant(n, p[0] as int, set_region(quadrant(n, p[0] as int), p.drop_first(), value))
    }
}

/// What setting the region that `p` leads to from `n` to `value` delivers, where
/// `above` holds the observers from the root down to the parent of `n`, and `path`
/// leads to `n`: the removal of a full leaf's value when it is subdivided, then what
/// the quadrant on the way delivers, then the merge, if the quadrants merge.
pub open spec fn set_events<T>(
    n: QuadNode<T>,
    p: Seq<u8>,
    value: Option<T>,
    above: Seq<Option<u64>>,
    path: Seq<u8>,
) -> Seq<(u64, EventType, Seq<u8>)>
    decreases p.len(),
{
    if p.len() == 0 {
        whole_events(n, value, above, path)
    } else if n.node == leaf_of(value) {
        seq![]
    } else {
        let chain = above.push(n.observer);
        let i = p[0] as int;
        let x = set_region(quadrant(n, i), p.drop_first(), value);
        let split = if n.node is Full {
            notices(chain, EventType::Removing, path)
        } else {
            seq![]
        };
        split + set_events(quadrant(n, i), p.drop_first(), value, chain, path.push(p[0]))
            + merge_notices(
            if i == 0 { x } else { quadrant(n, 0) },
            if i == 1 { x } else { quadrant(n, 1) },
            if i == 2 { x } else { quadrant(n, 2) },
            if i == 3 { x } else { quadrant(n, 3) },
            chain,
            path,
        )
    }
}

/// What setting the whole region of `n` to `value` delivers, where `above` holds
/// the observers from the root down to the parent of `n`, and `path` leads to `n`:
/// the quadrants are set in order, then a subdivided node reports its merge.
pub open spec fn whole_events<T>(
    n: QuadNode<T>,
    value: Option<T>,
    above: Seq<Option<u64>>,
    path: Seq<u8>,
) -> Seq<(u64, EventType, Seq<u8>)>
    decreases n,
{
    let chain = above.push(n.observer);
    match n.node {
        Node::Subdivided(a, b, c, d) => whole_events(*a, value, chain, path.push(0))
            + whole_events(*b, value, chain, path.push(1))
            + whole_events(*c, value, chain, path.push(2))
            + whole_events(*d, value, chain, path.push(3))
            + notices(chain, merge_event(leaf_of(value)), path),
        _ => match leaf_event(n.node, value) {
            Some(e) => notices(chain, e, path),
            None => seq![],
        },
    }
}

/// The leaf that holds `value`.
pub(crate) fn make_leaf<T: Copy>(value: Option<T>) -> (r: Node<T>)
    ensures
        r == leaf_of(value),
{
    match value {
        Some(v) => Node::Full(v),
        None => Node::Empty,
    }
}

pub(crate) fn values_equal<T: PartialEq>(x: &T, y: &T) -> (r: bool)
    requires
        obeys_concrete_eq::<T>(),
    ensures
        r == (*x == *y),
{
    proof {
        reveal(obeys_concrete_eq);
    }
    *x == *y
}

/// Whether `n` is the leaf that holds `value`.
pub(crate) fn is_leaf_of<T: Copy + PartialEq>(n: &Node<T>, value: &Option<T>) -> (r: bool)
    requires
        obeys_concrete_eq::<T>(),
    ensures
        r == (*n == leaf_of(*value)),
{
    match n {
        Node::Empty => value.is_none(),
        Node::Full(x) => match value {
            Some(v) => values_equal(x, v),
            None => false,
        },
        Node::Subdivided(..) => false,
    }
}

/// Whether two nodes are leaves in the same state.
pub(crate) fn same_leaf<T: Copy + PartialEq>(m: &Node<T>, n: &Node<T>) -> (r: bool)
    requires
        obeys_concrete_eq::<T>(),
    ensures
        r == (!(*m is Subdivided) && *m == *n),
{
    match m {
        Node::Empty => match n {
            Node::Empty => true,
            _ => false,
        },
        Node::Full(x) => match n {
            Node::Full(y) => values_equal(x, y),
            _ => false,
        },
        Node::Subdivided(..) => false,
    }
}

/// A copy of a leaf.
pub(crate) fn copy_leaf<T: Copy>(n: &Node<T>) -> (r: Node<T>)
    requires
        !(*n is Subdivided),
    ensures
        r == *n,
{
    match n {
        Node::Empty => Node::Empty,
        Node::Full(x) => Node::Full(*x),
        Node::Subdivided(..) => Node::Empty,
    }
}

/// Sets the whole region of `n` to `value`; `chain` holds the observers from the
/// root down to the parent of `n`, and `path` leads to `n`.
pub(crate) fn set_whole<T: Copy + PartialEq>(
    n: QuadNode<T>,
    value: Option<T>,
    chain: &mut Vec<Option<u64>>,
    path: &mut Vec<u8>,
    log: &mut Vec<Notification>,
) -> (r: (QuadNode<T>, bool))
    requires
        obeys_concrete_eq::<T>(),
    ensures
        final(chain)@ == old(chain)@,
        final(path)@ == old(path)@,
        r.0.node == leaf_of(value),
        r.0.observer == n.observer,
        r.1 == (n.node != leaf_of(value)),
        log_view(final(log)@) == log_view(old(log)@) + whole_events(n, value, old(chain)@, old(path)@),
    decreases n,
{
    let ghost n0 = n;
    let ghost above = chain@;
    let ghost at = path@;
    let ghost log0 = log_view(log@);
    let QuadNode { node, observer } = n;
    chain.push(observer);
    let k = chain.len();
    let r = match node {
        Node::Subdivided(a, b, c, d) => {
            path.push(0);
            let _ = set_whole(*a, value, chain, path, log);
            path.pop();
            assert(path@ =~= at);
            path.push(1);
            let _ = set_whole(*b, value, chain, path, log);
            path.pop();
            assert(path@ =~= at);
            path.push(2);
            let _ = set_whole(*c, value, chain, path, log);
            path.pop();
            assert(path@ =~= at);
            path.push(3);
            let _ = set_whole(*d, value, chain, path, log);
            path.pop();
            assert(path@ =~= at);
            let event = if value.is_some() {
                EventType::Added
            } else {
                EventType::Changed
            };
            deliver(chain, k, event, path, log);
            (QuadNode { node: make_leaf(value), observer }, true)
        },
        Node::Empty => match value {
            Some(v) => {
                deliver(chain, k, EventType::Added, path, log);
                (QuadNode { node: Node::Full(v), observer }, true)
            },
            None => (QuadNode { node: Node::Empty, observer }, false),
        },
        Node::Full(x) => match value {
            None => {
                deliver(chain, k, EventType::Removing, path, log);
                (QuadNode { node: Node::Empty, observer }, true)
            },
            Some(y) => if values_equal(&x, &y) {
                (QuadNode { node: Node::Full(x), observer }, false)
            } else {
                deliver(chain, k, EventType::Changed, path, log);
                (QuadNode { node: Node::Full(y), observer }, true)
            },
        },
    };
    chain.pop();
    assert(chain@ =~= above);
    proof {
        assert(above.push(n0.observer).subrange(0, k as int) =~= above.push(n0.observer));
        assert(log_view(log@) =~= log0 + whole_events(n0, value, above, at));
    }
    r
}

/// Joins four quadrants under a node, merging them into one leaf when they are
/// uniform (which is then reported at that node, whose chain of observers from the
/// root down is `chain`, at `path`).
pub(crate) fn merge<T: Copy + PartialEq>(
    a: QuadNode<T>,
    b: QuadNode<T>,
    c: QuadNode<T>,
    d: QuadNode<T>,
    observer: Option<u64>,
    chain: &Vec<Option<u64>>,
    path: &Vec<u8>,
    log: &mut Vec<Notification>,
) -> (r: QuadNode<T>)
    requires
        obeys_concrete_eq::<T>(),
    ensures
        r.observer == observer,
        compressed(a) && compressed(b) && compressed(c) && compressed(d) ==> compressed(r),
        forall|levels: nat|
            levels > 0 && within_levels(a, (levels - 1) as nat) && within_levels(
                b,
                (levels - 1) as nat,
            ) && within_levels(c, (levels - 1) as nat) && within_levels(d, (levels - 1) as nat)
                ==> within_levels(r, levels),
        forall|q: Seq<u8>|
            q.len() > 0 ==> region_at(r, q) == region_at(subdivided(a, b, c, d, observer), q),
        r == merged(a, b, c, d, observer),
        log_view(final(log)@) == log_view(old(log)@) + merge_notices(a, b, c, d, chain@, path@),
{
    let ghost s = subdivided(a, b, c, d, observer);
    if same_leaf(&a.node, &b.node) && same_leaf(&a.node, &c.node) && same_leaf(&a.node, &d.node) {
        let event = match a.node {
            Node::Full(_) => EventType::Added,
            _ => EventType::Changed,
        };
        let ghost log0 = log_view(log@);
        deliver(chain, chain.len(), event, path, log);
        assert(chain@.subrange(0, chain@.len() as int) =~= chain@);
        let r = QuadNode { node: copy_leaf(&a.node), observer };
        assert forall|q: Seq<u8>| q.len() > 0 implies region_at(r, q) == region_at(s, q) by {
            let i = q[0] as int;
            assert(region_at(s, q) == region_at(child(s.node, i), q.drop_first()));
        }
        r
    } else {
        assert(log_view(log@) =~= log_view(log@) + merge_notices(a, b, c, d, chain@, path@));
        QuadNode {
            node: Node::Subdivided(Box::new(a), Box::new(b), Box::new(c), Box::new(d)),
            observer,
        }
    }
}

/// The four quadrants of a node: a subdivided node hands out its own, and a leaf
/// is subdivided into four leaves in its state, which reports the removal of a
/// full leaf's value at that node (whose chain of observers from the root down is
/// `chain`, at `path`).
pub(crate) fn subdivide<T: Copy>(
    node: Node<T>,
    chain: &Vec<Option<u64>>,
    path: &Vec<u8>,
    log: &mut Vec<Notification>,
) -> (r: (QuadNode<T>, QuadNode<T>, QuadNode<T>, QuadNode<T>))
    ensures
        forall|o: Option<u64>, q: Seq<u8>|
            q.len() > 0 ==> region_at(subdivided(r.0, r.1, r.2, r.3, o), q) == region_at(
                QuadNode { node, observer: o },
                q,
            ),
        compressed(QuadNode { node, observer: None }) ==> compressed(r.0) && compressed(r.1)
            && compressed(r.2) && compressed(r.3),
        forall|levels: nat|
            levels > 0 && within_levels(QuadNode { node, observer: None }, levels) ==> {
                &&& within_levels(r.0, (levels - 1) as nat)
                &&& within_levels(r.1, (levels - 1) as nat)
                &&& within_levels(r.2, (levels - 1) as nat)
                &&& within_levels(r.3, (levels - 1) as nat)
            },
        node is Full ==> log_view(final(log)@) == log_view(old(log)@) + notices(
            chain@,
            EventType::Removing,
            path@,
        ),
        !(node is Full) ==> final(log)@ == old(log)@,
        r.0 == quadrant(QuadNode { node, observer: None }, 0),
        r.1 == quadrant(QuadNode { node, observer: None }, 1),
        r.2 == quadrant(QuadNode { node, observer: None }, 2),
        r.3 == quadrant(QuadNode { node, observer: None }, 3),
{
    let ghost n0 = node;
    let r = match node {
        Node::Subdivided(a, b, c, d) => (*a, *b, *c, *d),
        Node::Empty => (
            QuadNode { node: Node::Empty, observer: None },
            QuadNode { node: Node::Empty, observer: None },
            QuadNode { node: Node::Empty, observer: None },
            QuadNode { node: Node::Empty, observer: None },
        ),
        Node::Full(x) => {
            deliver(chain, chain.len(), EventType::Removing, path, log);
            assert(chain@.subrange(0, chain@.len() as int) =~= chain@);
            (
                QuadNode { node: Node::Full(x), observer: None },
                QuadNode { node: Node::Full(x), observer: None },
                QuadNode { node: Node::Full(x), observer: None },
                QuadNode { node: Node::Full(x), observer: None },
            )
        },
    };
    proof {
        assert forall|o: Option<u64>, q: Seq<u8>| q.len() > 0 implies region_at(
            subdivided(r.0, r.1, r.2, r.3, o),
            q,
        ) == region_at(QuadNode { node: n0, observer: o }, q) by {
            let s = subdivided(r.0, r.1, r.2, r.3, o);
            let n = QuadNode { node: n0, observer: o };
            assert(region_at(s, q) == region_at(child(s.node, q[0] as int), q.drop_first()));
            if n0 is Subdivided {
                assert(region_at(n, q) == region_at(child(n.node, q[0] as int), q.drop_first()));
            }
        }
    }
    r
}

/// Setting the region that `rest` leads to inside quadrant `rest[0]` of a node, seen
/// from the node: `s0` and `s1` are the node subdivided before and after, and `n0`
/// and `r` agree with them on every path that enters a quadrant.
proof fn lemma_region_step<T>(
    n0: QuadNode<T>,
    r: QuadNode<T>,
    s0: QuadNode<T>,
    s1: QuadNode<T>,
    rest: Seq<u8>,
    value: Option<T>,
)
    requires
        rest.len() > 0,
        rest[0] < 4,
        s0.node is Subdivided,
        s1.node is Subdivided,
        forall|j: int| 0 <= j < 4 && j != rest[0] ==> child(s1.node, j) == child(s0.node, j),
        region_set(child(s0.node, rest[0] as int), child(s1.node, rest[0] as int), rest.drop_first(), value),
        forall|q: Seq<u8>| q.len() > 0 ==> region_at(n0, q) == region_at(s0, q),
        forall|q: Seq<u8>| q.len() > 0 ==> region_at(r, q) == region_at(s1, q),
    ensures
        region_set(n0, r, rest, value),
{
    let i = rest[0];
    let rest1 = rest.drop_first();
    let target = classification_of(leaf_of(value));
    assert forall|q: Seq<u8>|
        valid_path(q) && !(q.len() < rest.len() && q.is_prefix_of(rest)) implies region_at(r, q)
        == if rest.is_prefix_of(q) {
        target
    } else {
        region_at(n0, q)
    } by {
        if q.len() == 0 {
            assert(q.is_prefix_of(rest));
        }
        let q1 = q.drop_first();
        assert(region_at(s1, q) == region_at(child(s1.node, q[0] as int), q1));
        assert(region_at(s0, q) == region_at(child(s0.node, q[0] as int), q1));
        if q[0] == i {
            assert(valid_path(q1));
            if q1.len() < rest1.len() && q1.is_prefix_of(rest1) {
                assert(q =~= seq![i].add(q1));
                assert(rest =~= seq![i].add(rest1));
                assert(q.is_prefix_of(rest));
            }
            if rest.is_prefix_of(q) {
                assert(rest1 =~= q1.subrange(0, rest1.len() as int));
            }
            if rest1.is_prefix_of(q1) {
                assert forall|k: int| 0 <= k < rest.len() implies rest[k] == q[k] by {
                    if k > 0 {
                        assert(rest[k] == rest1[k - 1]);
                        assert(q[k] == q1[k - 1]);
                        assert(q1[k - 1] == q1.subrange(0, rest1.len() as int)[k - 1]);
                    }
                }
                assert(rest =~= q.subrange(0, rest.len() as int));
            }
        } else {
            if rest.is_prefix_of(q) {
                assert(q[0] == q.subrange(0, rest.len() as int)[0]);
            }
        }
    }
}

/// Sets the region that `p[pos..]` leads to from `n` to `value`, subdividing leaves
/// on the way down and merging uniform quadrants on the way back up; `chain` holds
/// the observers from the root down to the parent of `n`, and `path` leads to `n`.
#[verifier::spinoff_prover]
#[verifier::rlimit(40)]
pub(crate) fn set_below<T: Copy + PartialEq>(
    n: QuadNode<T>,
    p: &Vec<u8>,
    pos: usize,
    value: Option<T>,
    chain: &mut Vec<Option<u64>>,
    path: &mut Vec<u8>,
    log: &mut Vec<Notification>,
    Ghost(levels): Ghost<nat>,
) -> (r: (QuadNode<T>, bool))
    requires
        obeys_concrete_eq::<T>(),
        pos <= p@.len(),
        valid_path(p@),
        p@.len() - pos <= levels,
        compressed(n),
        within_levels(n, levels),
    ensures
        final(chain)@ == old(chain)@,
        final(path)@ == old(path)@,
        r.0.observer == n.observer,
        compressed(r.0),
        within_levels(r.0, levels),
        r.1 == (region_at(n, p@.subrange(pos as int, p@.len() as int)) != classification_of(
            leaf_of(value),
        )),
        region_set(n, r.0, p@.subrange(pos as int, p@.len() as int), value),
        r.0 == set_region(n, p@.subrange(pos as int, p@.len() as int), value),
        log_view(final(log)@) == log_view(old(log)@) + set_events(
            n,
            p@.subrange(pos as int, p@.len() as int),
            value,
            old(chain)@,
            old(path)@,
        ),
    decreases p@.len() - pos,
{
    let ghost n0 = n;
    let ghost rest = p@.subrange(pos as int, p@.len() as int);
    let ghost above = chain@;
    let ghost at = path@;
    let ghost log0 = log_view(log@);
    if pos == p.len() {
        let r = set_whole(n, value, chain, path, log);
        assert forall|q: Seq<u8>| valid_path(q) implies #[trigger] rest.is_prefix_of(q) by {
            assert(q.subrange(0, 0) =~= rest);
        }
        return r;
    }
    if is_leaf_of(&n.node, &value) {
        assert(log_view(log@) =~= log0 + set_events(n0, rest, value, above, at));
        return (n, false);
    }
    let QuadNode { node, observer } = n;
    chain.push(observer);
    let (a, b, c, d) = subdivide(node, chain, path, log);
    let ghost s0 = subdivided(a, b, c, d, observer);
    let i = p[pos];
    path.push(i);
    let ghost lower = (levels - 1) as nat;
    let (a, b, c, d, changed) = if i == 0 {
        let (x, ch) = set_below(a, p, pos + 1, value, chain, path, log, Ghost(lower));
        (x, b, c, d, ch)
    } else if i == 1 {
        let (x, ch) = set_below(b, p, pos + 1, value, chain, path, log, Ghost(lower));
        (a, x, c, d, ch)
    } else if i == 2 {
        let (x, ch) = set_below(c, p, pos + 1, value, chain, path, log, Ghost(lower));
        (a, b, x, d, ch)
    } else {
        let (x, ch) = set_below(d, p, pos + 1, value, chain, path, log, Ghost(lower));
        (a, b, c, x, ch)
    };
    path.pop();
    assert(path@ =~= at);
    let r = merge(a, b, c, d, observer, chain, path, log);
    chain.pop();
    assert(chain@ =~= above);
    proof {
        let s1 = subdivided(a, b, c, d, observer);
        let rest1 = p@.subrange(pos + 1, p@.len() as int);
        assert(rest1 =~= rest.drop_first());
        assert(rest[0] == i);
        assert(quadrant(n0, 0) == quadrant(QuadNode { node: n0.node, observer: None }, 0));
        assert(quadrant(n0, 1) == quadrant(QuadNode { node: n0.node, observer: None }, 1));
        assert(quadrant(n0, 2) == quadrant(QuadNode { node: n0.node, observer: None }, 2));
        assert(quadrant(n0, 3) == quadrant(QuadNode { node: n0.node, observer: None }, 3));
        assert(r == set_region(n0, rest, value));
        assert(log_view(log@) =~= log0 + set_events(n0, rest, value, above, at));
        assert(region_at(n0, rest) == region_at(child(s0.node, i as int), rest1));
        lemma_region_step(n0, r, s0, s1, rest, value);
    }
    (r, changed)
}

/// Whether every step of `p` names one of the four quadrants.
pub fn is_valid_path(p: &Vec<u8>) -> (r: bool)
    ensures
        r == valid_path(p@),
{
    let mut k: usize = 0;
    while k < p.len()
        invariant
            k <= p@.len(),
            forall|j: int| 0 <= j < k ==> p@[j] < 4,
        decreases p@.len() - k,
    {
        if p[k] >= 4 {
            return false;
        }
        k = k + 1;
    }
    true
}

/// `after` is `before` with the observer of the node that `p` leads to replaced.
pub(crate) fn attach_below<T>(n: QuadNode<T>, p: &Vec<u8>, pos: usize, observer: Option<u64>) -> (r:
    QuadNode<T>)
    requires
        pos <= p@.len(),
        node_at(n, p@.subrange(pos as int, p@.len() as int)) is Some,
    ensures
        compressed(n) ==> compressed(r),
        forall|levels: nat| within_levels(n, levels) ==> within_levels(r, levels),
        forall|q: Seq<u8>| region_at(r, q) == region_at(n, q),
        node_at(r, p@.subrange(pos as int, p@.len() as int)) == Some(
            QuadNode {
                node: node_at(n, p@.subrange(pos as int, p@.len() as int))->0.node,
                observer,
            },
        ),
        r == with_observer(n, p@.subrange(pos as int, p@.len() as int), observer),
    decreases p@.len() - pos,
{
    let ghost n0 = n;
    let ghost rest = p@.subrange(pos as int, p@.len() as int);
    if pos == p.len() {
        return QuadNode { node: n.node, observer };
    }
    let ghost rest1 = p@.subrange(pos + 1, p@.len() as int);
    assert(rest1 =~= rest.drop_first());
    let QuadNode { node, observer: own } = n;
    match node {
        Node::Subdivided(a, b, c, d) => {
            let i = p[pos];
            let (a, b, c, d) = if i == 0 {
                (attach_below(*a, p, pos + 1, observer), *b, *c, *d)
            } else if i == 1 {
                (*a, attach_below(*b, p, pos + 1, observer), *c, *d)
            } else if i == 2 {
                (*a, *b, attach_below(*c, p, pos + 1, observer), *d)
            } else {
                (*a, *b, *c, attach_below(*d, p, pos + 1, observer))
            };
            let r = QuadNode {
                node: Node::Subdivided(Box::new(a), Box::new(b), Box::new(c), Box::new(d)),
                observer: own,
            };
            proof {
                assert forall|q: Seq<u8>| region_at(r, q) == region_at(n0, q) by {
                    if q.len() > 0 {
                        assert(region_at(r, q) == region_at(child(r.node, q[0] as int), q.drop_first()));
                        assert(region_at(n0, q) == region_at(child(n0.node, q[0] as int), q.drop_first()));
                    }
                }
                assert(node_at(r, rest) == node_at(child(r.node, i as int), rest1));
                assert(rest[0] == i);
                assert(r == with_observer(n0, rest, observer));
                assert forall|levels: nat| within_levels(n0, levels) implies within_levels(
                    r,
                    levels,
                ) by {
                    let lower = (levels - 1) as nat;
                    assert(within_levels(child(n0.node, 0), lower));
                    assert(within_levels(child(n0.node, 1), lower));
                    assert(within_levels(child(n0.node, 2), lower));
                    assert(within_levels(child(n0.node, 3), lower));
                }
            }
            r
        },
        _ => {
            // a leaf has no node below it, so the path ended here
            assert(false);
            QuadNode { node, observer: own }
        },
    }
}

/// The node that `p[pos..]` leads to from `n`, if there is one.
pub(crate) fn lookup<'a, T>(n: &'a QuadNode<T>, p: &Vec<u8>, pos: usize) -> (r: Option<&'a QuadNode<T>>)
    requires
        pos <= p@.len(),
    ensures
        r is Some <==> node_at(*n, p@.subrange(pos as int, p@.len() as int)) is Some,
        r is Some ==> *r->0 == node_at(*n, p@.subrange(pos as int, p@.len() as int))->0,
    decreases p@.len() - pos,
{
    let ghost rest = p@.subrange(pos as int, p@.len() as int);
    if pos == p.len() {
        return Some(n);
    }
    assert(p@.subrange(pos + 1, p@.len() as int) =~= rest.drop_first());
    let i = p[pos];
    match &n.node {
        Node::Subdivided(a, b, c, d) => {
            if i == 0 {
                lookup(a, p, pos + 1)
            } else if i == 1 {
                lookup(b, p, pos + 1)
            } else if i == 2 {
                lookup(c, p, pos + 1)
            } else if i == 3 {
                lookup(d, p, pos + 1)
            } else {
                None
            }
        },
        _ => None,
    }
}

/// What the region that `p[pos..]` leads to from `n` holds.
pub(crate) fn region_below<T: Copy>(n: &QuadNode<T>, p: &Vec<u8>, pos: usize) -> (r: Classification<T>)
    requires
        pos <= p@.len(),
    ensures
        r == region_at(*n, p@.subrange(pos as int, p@.len() as int)),
    decreases p@.len() - pos,
{
    let ghost rest = p@.subrange(pos as int, p@.len() as int);
    match &n.node {
        Node::Empty => Classification::UniformEmpty,
        Node::Full(v) => Classification::UniformFull(*v),
        Node::Subdivided(a, b, c, d) => {
            if pos == p.len() {
                return Classification::Subdivided;
            }
            assert(p@.subrange(pos + 1, p@.len() as int) =~= rest.drop_first());
            let i = p[pos];
            if i == 0 {
                region_below(a, p, pos + 1)
            } else if i == 1 {
                region_below(b, p, pos + 1)
            } else if i == 2 {
                region_below(c, p, pos + 1)
            } else {
                region_below(d, p, pos + 1)
            }
        },
    }
}

/// Appends to `chain` the observers of the nodes from `n` down to the node that
/// `p[pos..]` leads to.
pub(crate) fn collect_observers<T>(n: &QuadNode<T>, p: &Vec<u8>, pos: usize, chain: &mut Vec<Option<u64>>)
    requires
        pos <= p@.len(),
        node_at(*n, p@.subrange(pos as int, p@.len() as int)) is Some,
    ensures
        final(chain)@ == old(chain)@ + observers_along(
            *n,
            p@.subrange(pos as int, p@.len() as int),
        ),
    decreases p@.len() - pos,
{
    let ghost rest = p@.subrange(pos as int, p@.len() as int);
    let ghost start = chain@;
    chain.push(n.observer);
    if pos == p.len() {
        assert(chain@ =~= start + observers_along(*n, rest));
        return;
    }
    assert(p@.subrange(pos + 1, p@.len() as int) =~= rest.drop_first());
    let i = p[pos];
    match &n.node {
        Node::Subdivided(a, b, c, d) => {
            if i == 0 {
                collect_observers(a, p, pos + 1, chain);
            } else if i == 1 {
                collect_observers(b, p, pos + 1, chain);
            } else if i == 2 {
                collect_observers(c, p, pos + 1, chain);
            } else {
                collect_observers(d, p, pos + 1, chain);
            }
        },
        _ => {},
    }
    assert(chain@ =~= start + observers_along(*n, rest));
}

} // verus!
