//! The region quadtree: a square domain of side `2^resolution`, its root node,
//! and the notifications its updates deliver.

use vstd::prelude::*;
use vstd::arithmetic::power2::{pow2, lemma2_to64, lemma_pow2_strictly_increases, lemma_pow2_unfold};
use vstd::laws_eq::obeys_concrete_eq;
use crate::events::{EventType, Notification, log_view, notices, deliver};
use crate::geometry::{Point2, AABB2};
use crate::node::{
    Classification,
    Node,
    QuadNode,
    classification_of,
    compressed,
    fill,
    fill_changes,
    leaf_of,
    node_at,
    observers_along,
    region_at,
    region_set,
    square_at,
    valid_path,
    with_observer,
    within_levels,
};
use crate::update::{
    attach_below,
    collect_observers,
    is_valid_path,
    lookup,
    make_leaf,
    region_below,
    set_below,
    set_events,
    set_region,
    set_whole,
    whole_events,
};

verus! {

/// A tree over a square domain of side `2^resolution`.
pub struct RegionQuadtree<T> {
    root: QuadNode<T>,
    resolution: u32,
    size: u32,
    events: Vec<Notification>,
}

impl<T: Copy + PartialEq> RegionQuadtree<T> {
    pub closed spec fn spec_root(&self) -> QuadNode<T> {
        self.root
    }

    pub closed spec fn spec_resolution(&self) -> nat {
        self.resolution as nat
    }

    /// The notifications delivered so far and not yet taken.
    pub closed spec fn spec_events(&self) -> Seq<(u64, EventType, Seq<u8>)> {
        log_view(self.events@)
    }

    /// The tree is well formed: the side of the domain fits the coordinates, and
    /// the nodes are compressed and no deeper than the resolution allows.
    pub closed spec fn wf(&self) -> bool {
        &&& self.resolution < 32
        &&& self.size == pow2(self.resolution as nat)
        &&& compressed(self.root)
        &&& within_levels(self.root, self.resolution as nat)
    }

    /// No tree that the operations of this type produce holds a subdivided node
    /// whose four quadrants are leaves in one and the same state, nor more levels
    /// than its resolution.
    pub proof fn lemma_compression_invariant(&self)
        requires
            self.wf(),
        ensures
            compressed(self.spec_root()),
            within_levels(self.spec_root(), self.spec_resolution()),
    {
    }

    /// The side length of a domain of the given resolution, if it fits the coordinates.
    pub fn calculate_size(resolution: u32) -> (r: Option<u32>)
        ensures
            r is Some <==> resolution < 32,
            r is Some ==> r->0 == pow2(resolution as nat),
    {
        proof {
            lemma2_to64();
        }
        let mut size: u32 = 1;
        let mut i: u32 = 0;
        while i < resolution
            invariant
                i <= resolution,
                i < 32,
                size == pow2(i as nat),
            decreases resolution - i,
        {
            proof {
                lemma2_to64();
                lemma_pow2_unfold((i + 1) as nat);
            }
            match size.checked_mul(2) {
                Some(s) => {
                    size = s;
                },
                None => {
                    proof {
                        if resolution < 32 {
                            lemma_pow2_strictly_increases((i + 1) as nat, 32);
                        }
                    }
                    return None;
                },
            }
            i = i + 1;
            if i == 32 {
                return None;
            }
        }
        Some(size)
    }

    /// A tree over a domain of side `2^resolution`, holding `initial_value`
    /// everywhere; `None` where that side does not fit the coordinates.
    pub fn new(resolution: u32, initial_value: Option<T>) -> (r: Option<Self>)
        ensures
            r is Some <==> resolution < 32,
            r is Some ==> r->0.wf(),
            r is Some ==> r->0.spec_resolution() == resolution,
            r is Some ==> (r->0.spec_root() == QuadNode {
                node: leaf_of(initial_value),
                observer: None,
            }),
            r is Some ==> r->0.spec_events().len() == 0,
    {
        let size = Self::calculate_size(resolution);
        match size {
            None => None,
            Some(size) => {
                let t = RegionQuadtree {
                    root: QuadNode { node: make_leaf(initial_value), observer: None },
                    resolution,
                    size,
                    events: Vec::new(),
                };
                Some(t)
            },
        }
    }

    pub fn get_resolution(&self) -> (r: u32)
        ensures
            r == self.spec_resolution(),
    {
        self.resolution
    }

    /// The region of the whole domain: from the origin to `(2^resolution, 2^resolution)`.
    pub fn get_aabb(&self) -> (r: AABB2)
        requires
            self.wf(),
        ensures
            r.wf(),
            r.lower_bound == (Point2 { x: 0, y: 0 }),
            r.width_spec() == pow2(self.spec_resolution()),
            r.height_spec() == pow2(self.spec_resolution()),
    {
        AABB2::new(Point2::new(0, 0), Point2::new(self.size, self.size))
    }

    /// What the whole domain holds.
    pub fn classify(&self) -> (r: Classification<T>)
        ensures
            r == classification_of(self.spec_root().node),
    {
        match &self.root.node {
            Node::Empty => Classification::UniformEmpty,
            Node::Full(v) => Classification::UniformFull(*v),
            Node::Subdivided(..) => Classification::Subdivided,
        }
    }

    /// Sets the whole domain to `value`; true when anything changed. Values are
    /// compared with `==`, which must be equality.
    pub fn set(&mut self, value: Option<T>) -> (r: bool)
        requires
            old(self).wf(),
            obeys_concrete_eq::<T>(),
        ensures
            final(self).wf(),
            final(self).spec_resolution() == old(self).spec_resolution(),
            r == fill_changes(old(self).spec_root(), value),
            final(self).spec_root() == fill(old(self).spec_root(), value),
            final(self).spec_events() == old(self).spec_events() + whole_events(
                old(self).spec_root(),
                value,
                seq![],
                seq![],
            ),
    {
        let mut root = QuadNode { node: Node::Empty, observer: None };
        std::mem::swap(&mut root, &mut self.root);
        let mut chain: Vec<Option<u64>> = Vec::new();
        let mut path: Vec<u8> = Vec::new();
        let (root, changed) = set_whole(root, value, &mut chain, &mut path, &mut self.events);
        self.root = root;
        changed
    }

    /// Sets the region that `path` leads to (one quadrant index per level, each
    /// below 4, at most `resolution` of them) to `value`, subdividing leaves on the
    /// way down and merging uniform quadrants on the way back up. `None` when the
    /// path names no such region; otherwise whether that region changed.
    pub fn set_at(&mut self, path: &Vec<u8>, value: Option<T>) -> (r: Option<bool>)
        requires
            old(self).wf(),
            obeys_concrete_eq::<T>(),
        ensures
            final(self).wf(),
            final(self).spec_resolution() == old(self).spec_resolution(),
            r is Some <==> valid_path(path@) && path@.len() <= old(self).spec_resolution(),
            r is None ==> *final(self) == *old(self),
            r is Some ==> r->0 == (region_at(old(self).spec_root(), path@) != classification_of(
                leaf_of(value),
            )),
            r is Some ==> region_set(old(self).spec_root(), final(self).spec_root(), path@, value),
            r is Some ==> final(self).spec_root() == set_region(old(self).spec_root(), path@, value),
            r is Some ==> final(self).spec_events() == old(self).spec_events() + set_events(
                old(self).spec_root(),
                path@,
                value,
                seq![],
                seq![],
            ),
    {
        if path.len() > self.resolution as usize || !is_valid_path(path) {
            return None;
        }
        let mut root = QuadNode { node: Node::Empty, observer: None };
        std::mem::swap(&mut root, &mut self.root);
        let mut chain: Vec<Option<u64>> = Vec::new();
        let mut at: Vec<u8> = Vec::new();
        assert(path@.subrange(0, path@.len() as int) =~= path@);
        let (root, changed) = set_below(
            root,
            path,
            0,
            value,
            &mut chain,
            &mut at,
            &mut self.events,
            Ghost(self.resolution as nat),
        );
        self.root = root;
        Some(changed)
    }

    /// Hands out the notifications delivered so far, oldest first, and clears them.
    pub fn take_events(&mut self) -> (r: Vec<Notification>)
        requires
            old(self).wf(),
        ensures
            final(self).wf(),
            final(self).spec_root() == old(self).spec_root(),
            final(self).spec_resolution() == old(self).spec_resolution(),
            log_view(r@) == old(self).spec_events(),
            final(self).spec_events() == Seq::<(u64, EventType, Seq<u8>)>::empty(),
    {
        let mut out: Vec<Notification> = Vec::new();
        std::mem::swap(&mut out, &mut self.events);
        assert(log_view(self.events@) =~= Seq::<(u64, EventType, Seq<u8>)>::empty());
        out
    }

    /// What the node that `path` leads to holds; `None` when no node is there.
    pub fn classify_at(&self, path: &Vec<u8>) -> (r: Option<Classification<T>>)
        ensures
            r is Some <==> node_at(self.spec_root(), path@) is Some,
            r is Some ==> r->0 == classification_of(node_at(self.spec_root(), path@)->0.node),
    {
        assert(path@.subrange(0, path@.len() as int) =~= path@);
        match lookup(&self.root, path, 0) {
            Some(n) => Some(
                match &n.node {
                    Node::Empty => Classification::UniformEmpty,
                    Node::Full(v) => Classification::UniformFull(*v),
                    Node::Subdivided(..) => Classification::Subdivided,
                },
            ),
            None => None,
        }
    }

    /// What the region that `path` leads to holds, whether or not a node of its
    /// own stands there; `None` when the path names no region of the domain.
    pub fn get_region(&self, path: &Vec<u8>) -> (r: Option<Classification<T>>)
        ensures
            r is Some <==> valid_path(path@) && path@.len() <= self.spec_resolution(),
            r is Some ==> r->0 == region_at(self.spec_root(), path@),
    {
        if path.len() > self.resolution as usize || !is_valid_path(path) {
            return None;
        }
        assert(path@.subrange(0, path@.len() as int) =~= path@);
        Some(region_below(&self.root, path, 0))
    }

    /// Attaches `observer` to the node that `path` leads to, replacing the one it
    /// had (`None` detaches it); false, and nothing changes, when no node is there.
    pub fn attach_observer(&mut self, path: &Vec<u8>, observer: Option<u64>) -> (r: bool)
        requires
            old(self).wf(),
        ensures
            final(self).wf(),
            final(self).spec_resolution() == old(self).spec_resolution(),
            final(self).spec_events() == old(self).spec_events(),
            r == node_at(old(self).spec_root(), path@) is Some,
            !r ==> *final(self) == *old(self),
            r ==> node_at(final(self).spec_root(), path@) == Some(
                QuadNode { node: node_at(old(self).spec_root(), path@)->0.node, observer },
            ),
            r ==> final(self).spec_root() == with_observer(old(self).spec_root(), path@, observer),
            forall|q: Seq<u8>| region_at(final(self).spec_root(), q) == region_at(old(self).spec_root(), q),
    {
        assert(path@.subrange(0, path@.len() as int) =~= path@);
        if lookup(&self.root, path, 0).is_none() {
            return false;
        }
        let mut root = QuadNode { node: Node::Empty, observer: None };
        std::mem::swap(&mut root, &mut self.root);
        self.root = attach_below(root, path, 0, observer);
        true
    }

    /// Delivers `event_type` at the node that `path` leads to: to its own observer,
    /// then to each ancestor's toward the root, each naming that node as the one
    /// that changed. False, and nothing is delivered, when no node is there.
    pub fn propagate_event(&mut self, event_type: EventType, path: &Vec<u8>) -> (r: bool)
        requires
            old(self).wf(),
        ensures
            final(self).wf(),
            final(self).spec_root() == old(self).spec_root(),
            final(self).spec_resolution() == old(self).spec_resolution(),
            r == node_at(old(self).spec_root(), path@) is Some,
            r ==> final(self).spec_events() == old(self).spec_events() + notices(
                observers_along(old(self).spec_root(), path@),
                event_type,
                path@,
            ),
            !r ==> final(self).spec_events() == old(self).spec_events(),
    {
        assert(path@.subrange(0, path@.len() as int) =~= path@);
        if lookup(&self.root, path, 0).is_none() {
            return false;
        }
        let mut chain: Vec<Option<u64>> = Vec::new();
        collect_observers(&self.root, path, 0, &mut chain);
        assert(chain@ =~= observers_along(self.root, path@));
        let k = chain.len();
        deliver(&chain, k, event_type, path, &mut self.events);
        assert(chain@.subrange(0, k as int) =~= chain@);
        true
    }

    /// The square region of the node or region that `path` leads to; `None` when
    /// the path names no region of the domain.
    pub fn get_node_aabb(&self, path: &Vec<u8>) -> (r: Option<AABB2>)
        requires
            self.wf(),
        ensures
            r is Some <==> valid_path(path@) && path@.len() <= self.spec_resolution(),
            r is Some ==> r->0.wf(),
            r is Some ==> r->0.width_spec() == pow2((self.spec_resolution() - path@.len()) as nat),
            r is Some ==> r->0.height_spec() == r->0.width_spec(),
            r is Some ==> square_at(0, 0, pow2(self.spec_resolution()) as int, path@) == (
                r->0.lower_bound.x as int,
                r->0.lower_bound.y as int,
                r->0.width_spec(),
            ),
    {
        if path.len() > self.resolution as usize || !is_valid_path(path) {
            return None;
        }
        let ghost res = self.resolution as nat;
        proof {
            lemma2_to64();
            if res < 31 {
                lemma_pow2_strictly_increases(res, 31);
            }
        }
        let mut x: u32 = 0;
        let mut y: u32 = 0;
        let mut side: u32 = self.size;
        let mut k: usize = 0;
        assert(path@.subrange(0, path@.len() as int) =~= path@);
        while k < path.len()
            invariant
                k <= path@.len() <= res,
                res < 32,
                valid_path(path@),
                side == pow2((res - k) as nat),
                x + side <= pow2(res),
                y + side <= pow2(res),
                pow2(res) <= 0x8000_0000,
                square_at(0, 0, pow2(res) as int, path@) == square_at(
                    x as int,
                    y as int,
                    side as int,
                    path@.subrange(k as int, path@.len() as int),
                ),
            decreases path@.len() - k,
        {
            proof {
                lemma_pow2_unfold((res - k) as nat);
                assert(path@.subrange(k + 1, path@.len() as int) =~= path@.subrange(
                    k as int,
                    path@.len() as int,
                ).drop_first());
            }
            let half = side / 2;
            let i = path[k];
            if i == 1 || i == 2 {
                x = x + half;
            }
            if i == 2 || i == 3 {
                y = y + half;
            }
            side = half;
            k = k + 1;
        }
        assert(path@.subrange(k as int, path@.len() as int) =~= Seq::<u8>::empty());
        Some(AABB2::new(Point2::new(x, y), Point2::new(x + side, y + side)))
    }
}

} // verus!
