//! Properties that hold across several operations of the quadtree.

use vstd::prelude::*;
use crate::events::{
    EventType,
    notices,
    lemma_notices_bottom_up,
    lemma_notices_name_origin,
};
use crate::update::{leaf_event, set_events};
use crate::node::{
    Classification,
    Node,
    QuadNode,
    child,
    classification_of,
    fill,
    fill_changes,
    leaf_of,
    node_at,
    observers_along,
    region_at,
    region_set,
    valid_path,
};

verus! {

/// Setting a node wholly to `v` twice in a row: the second time changes nothing,
/// and the node holds `v` after both.
pub proof fn lemma_set_idempotent<T>(n: QuadNode<T>, v: T)
    ensures
        !fill_changes(fill(n, Some(v)), Some(v)),
        classification_of(fill(fill(n, Some(v)), Some(v)).node) == Classification::UniformFull(v),
{
}

/// Setting a node that does not already hold `v` wholly to `v` and then clearing
/// it: both change the node, and it is empty afterwards.
pub proof fn lemma_set_then_clear<T>(n: QuadNode<T>, v: T)
    requires
        n.node != Node::Full(v),
    ensures
        fill_changes(n, Some(v)),
        fill_changes(fill(n, Some(v)), None),
        classification_of(fill(fill(n, Some(v)), None).node) == Classification::<T>::UniformEmpty,
{
}

/// An event at the node that `p` leads to names that node in every delivery, and of
/// two observers on the way up, the one nearer that node (at depth `j`) is told
/// before the one nearer the root (at depth `i`).
pub proof fn lemma_event_order<T>(root: QuadNode<T>, p: Seq<u8>, event: EventType, i: int, j: int)
    requires
        node_at(root, p) is Some,
        0 <= i < j < observers_along(root, p).len(),
        observers_along(root, p)[i] is Some,
        observers_along(root, p)[j] is Some,
    ensures
        forall|k: int|
            0 <= k < notices(observers_along(root, p), event, p).len() ==> (#[trigger] notices(
                observers_along(root, p),
                event,
                p,
            )[k]).2 == p,
        exists|a: int, b: int|
            0 <= a < b < notices(observers_along(root, p), event, p).len() && notices(
                observers_along(root, p),
                event,
                p,
            )[a].0 == observers_along(root, p)[j]->0 && notices(
                observers_along(root, p),
                event,
                p,
            )[b].0 == observers_along(root, p)[i]->0,
{
    lemma_notices_name_origin(observers_along(root, p), event, p);
    lemma_notices_bottom_up(observers_along(root, p), event, p, i, j);
}

/// Changing the value of an existing leaf at `p` below `n` first delivers that
/// leaf's own event along the way up; merges above it come after.
proof fn lemma_leaf_change_first<T>(
    n: QuadNode<T>,
    p: Seq<u8>,
    value: Option<T>,
    above: Seq<Option<u64>>,
    path: Seq<u8>,
    e: EventType,
)
    requires
        node_at(n, p) is Some,
        !(node_at(n, p)->0.node is Subdivided),
        leaf_event(node_at(n, p)->0.node, value) == Some(e),
    ensures
        notices(above + observers_along(n, p), e, path + p).is_prefix_of(
            set_events(n, p, value, above, path),
        ),
    decreases p.len(),
{
    if p.len() == 0 {
        assert(above + observers_along(n, p) =~= above.push(n.observer));
        assert(path + p =~= path);
        let all = set_events(n, p, value, above, path);
        assert(all.subrange(0, all.len() as int) =~= all);
    } else {
        let c = child(n.node, p[0] as int);
        let chain = above.push(n.observer);
        lemma_leaf_change_first(c, p.drop_first(), value, chain, path.push(p[0]), e);
        assert(chain + observers_along(c, p.drop_first()) =~= above + observers_along(n, p));
        assert(path.push(p[0]) + p.drop_first() =~= path + p);
        let first = notices(above + observers_along(n, p), e, path + p);
        let inner = set_events(c, p.drop_first(), value, chain, path.push(p[0]));
        let all = set_events(n, p, value, above, path);
        assert(n.node is Subdivided);
        assert(all =~= inner + all.subrange(inner.len() as int, all.len() as int));
        assert forall|k: int| 0 <= k < first.len() implies first[k] == all[k] by {
            assert(first[k] == inner.subrange(0, first.len() as int)[k]);
        }
        assert(first =~= all.subrange(0, first.len() as int));
    }
}

/// Changing the value of an existing leaf at `p` (a deep node) with `set_at`: every
/// observer on the way from that node up to the root is told, each delivery of that
/// change names the node at `p`, and of two observers, the one nearer the node (at
/// depth `j`) is told before the one nearer the root (at depth `i`).
pub proof fn lemma_set_at_event_order<T>(
    root: QuadNode<T>,
    p: Seq<u8>,
    value: Option<T>,
    e: EventType,
    i: int,
    j: int,
)
    requires
        node_at(root, p) is Some,
        !(node_at(root, p)->0.node is Subdivided),
        leaf_event(node_at(root, p)->0.node, value) == Some(e),
        0 <= i < j < observers_along(root, p).len(),
        observers_along(root, p)[i] is Some,
        observers_along(root, p)[j] is Some,
    ensures
        exists|a: int, b: int|
            0 <= a < b < set_events(root, p, value, seq![], seq![]).len() && set_events(
                root,
                p,
                value,
                seq![],
                seq![],
            )[a] == (observers_along(root, p)[j]->0, e, p) && set_events(
                root,
                p,
                value,
                seq![],
                seq![],
            )[b] == (observers_along(root, p)[i]->0, e, p),
{
    let chain = observers_along(root, p);
    lemma_leaf_change_first(root, p, value, seq![], seq![], e);
    assert(Seq::<Option<u64>>::empty() + chain =~= chain);
    assert(Seq::<u8>::empty() + p =~= p);
    lemma_notices_bottom_up(chain, e, p, i, j);
    let first = notices(chain, e, p);
    let all = set_events(root, p, value, seq![], seq![]);
    let (a, b) = choose|a: int, b: int|
        0 <= a < b < first.len() && first[a] == (chain[j]->0, e, p) && first[b] == (
            chain[i]->0,
            e,
            p,
        );
    assert(first[a] == all.subrange(0, first.len() as int)[a]);
    assert(first[b] == all.subrange(0, first.len() as int)[b]);
}

/// After the region at `p` is set to `v`, it holds `v`, so setting it to `v` again
/// reports no change.
pub proof fn lemma_set_at_idempotent<T>(before: QuadNode<T>, after: QuadNode<T>, p: Seq<u8>, v: T)
    requires
        valid_path(p),
        region_set(before, after, p, Some(v)),
    ensures
        region_at(after, p) == Classification::UniformFull(v),
        !(region_at(after, p) != classification_of(leaf_of(Some(v)))),
{
    assert(p.subrange(0, p.len() as int) =~= p);
}

/// Setting the region at `p` to `v` where it did not hold `v`, then clearing it:
/// both report a change, and the region is empty afterwards.
pub proof fn lemma_set_at_then_clear<T>(
    before: QuadNode<T>,
    mid: QuadNode<T>,
    after: QuadNode<T>,
    p: Seq<u8>,
    v: T,
)
    requires
        valid_path(p),
        region_at(before, p) != Classification::UniformFull(v),
        region_set(before, mid, p, Some(v)),
        region_set(mid, after, p, None),
    ensures
        region_at(before, p) != classification_of(leaf_of(Some(v))),
        region_at(mid, p) != classification_of(leaf_of(None::<T>)),
        region_at(after, p) == Classification::<T>::UniformEmpty,
{
    assert(p.subrange(0, p.len() as int) =~= p);
}

} // verus!
