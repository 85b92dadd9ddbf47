use vstd::multiset::Multiset;
use vstd::prelude::*;
use vstd::seq_lib::group_to_multiset_ensures;
use vstd::seq_lib::lemma_multiset_commutative;

use crate::aabb::AABB;
use crate::aabb::contains;
use crate::aabb::lemma_union_tightest;
use crate::aabb::union;
use crate::rng::random_below;
use crate::scalar::Scalar;

verus! {

broadcast use group_to_multiset_ensures;

/// Index of a node in a tree's node arena.
#[derive(Clone, Copy, Debug, PartialEq, Eq, Structural)]
pub struct NodeId {
    pub index: usize,
}

/// A leaf refers to one primitive by its index; an inner node to its two
/// children by their node ids.
#[derive(Clone, Copy, Debug, PartialEq, Eq, Structural)]
pub enum NodeKind {
    Leaf(usize),
    Inner(NodeId, NodeId),
}

#[derive(Clone, Copy, Debug, PartialEq, Eq, Structural)]
pub struct BvhNode {
    pub aabb: AABB,
    pub kind: NodeKind,
}

/// Key along `axis` by which primitives are ordered: the minimum corner's
/// coordinate.
pub open spec fn axis_key(b: AABB, axis: int) -> u64 {
    b.min.at(axis).key
}

/// Node `i` is a leaf holding its primitive's box, or an inner node whose
/// children come earlier in the arena and whose box is their union.
pub open spec fn node_wf(nodes: Seq<BvhNode>, boxes: Seq<AABB>, i: int) -> bool {
    match nodes[i].kind {
        NodeKind::Leaf(j) => j < boxes.len() && nodes[i].aabb == boxes[j as int],
        NodeKind::Inner(l, r) => {
            &&& l.index < i
            &&& r.index < i
            &&& nodes[i].aabb == union(nodes[l.index as int].aabb, nodes[r.index as int].aabb)
        },
    }
}

pub open spec fn nodes_wf(nodes: Seq<BvhNode>, boxes: Seq<AABB>) -> bool {
    forall|i: int| 0 <= i < nodes.len() ==> #[trigger] node_wf(nodes, boxes, i)
}

/// The primitives under node `i`, with multiplicity.
pub open spec fn leaves(nodes: Seq<BvhNode>, i: int) -> Multiset<usize>
    decreases i,
{
    if i < 0 || i >= nodes.len() {
        Multiset::empty()
    } else {
        match nodes[i].kind {
            NodeKind::Leaf(j) => Multiset::singleton(j),
            NodeKind::Inner(l, r) => if l.index < i && r.index < i {
                leaves(nodes, l.index as int).add(leaves(nodes, r.index as int))
            } else {
                Multiset::empty()
            },
        }
    }
}

/// Along `axis`, every primitive of `left` comes no later than every
/// primitive of `right`.
pub open spec fn ordered_along(left: Multiset<usize>, right: Multiset<usize>, boxes: Seq<AABB>, axis: int) -> bool {
    forall|j: usize, k: usize|
        #[trigger] left.count(j) > 0 && #[trigger] right.count(k) > 0 ==> axis_key(boxes[j as int], axis)
            <= axis_key(boxes[k as int], axis)
}

/// An inner node gives its left child half of its primitives (rounded down),
/// and its children are separated along some axis.
pub open spec fn node_split(nodes: Seq<BvhNode>, boxes: Seq<AABB>, i: int) -> bool {
    match nodes[i].kind {
        NodeKind::Leaf(_) => true,
        NodeKind::Inner(l, r) => {
            &&& leaves(nodes, l.index as int).len() == leaves(nodes, i).len() / 2
            &&& exists|a: int| 0 <= a < 3 && #[trigger] ordered_along(leaves(nodes, l.index as int), leaves(nodes, r.index as int), boxes, a)
        },
    }
}

pub open spec fn nodes_split(nodes: Seq<BvhNode>, boxes: Seq<AABB>) -> bool {
    forall|i: int| 0 <= i < nodes.len() ==> #[trigger] node_split(nodes, boxes, i)
}

/// Appending nodes to a well-formed arena leaves the primitives under each
/// existing node unchanged.
proof fn lemma_leaves_stable(a: Seq<BvhNode>, b: Seq<BvhNode>, boxes: Seq<AABB>, i: int)
    requires
        nodes_wf(a, boxes),
        a.len() <= b.len(),
        b.subrange(0, a.len() as int) == a,
        0 <= i < a.len(),
    ensures
        leaves(b, i) == leaves(a, i),
    decreases i,
{
    assert(b[i] == a[i]);
    assert(node_wf(a, boxes, i));
    match a[i].kind {
        NodeKind::Leaf(_) => {},
        NodeKind::Inner(l, r) => {
            lemma_leaves_stable(a, b, boxes, l.index as int);
            lemma_leaves_stable(a, b, boxes, r.index as int);
        },
    }
}

/// Appending nodes to a well-formed arena keeps every existing node's split.
proof fn lemma_split_stable(a: Seq<BvhNode>, b: Seq<BvhNode>, boxes: Seq<AABB>)
    requires
        nodes_wf(a, boxes),
        nodes_split(a, boxes),
        a.len() <= b.len(),
        b.subrange(0, a.len() as int) == a,
    ensures
        forall|i: int| 0 <= i < a.len() ==> #[trigger] node_split(b, boxes, i),
{
    assert forall|i: int| 0 <= i < a.len() implies #[trigger] node_split(b, boxes, i) by {
        assert(b[i] == a[i]);
        assert(node_wf(a, boxes, i));
        assert(node_split(a, boxes, i));
        lemma_leaves_stable(a, b, boxes, i);
        match a[i].kind {
            NodeKind::Leaf(_) => {},
            NodeKind::Inner(l, r) => {
                lemma_leaves_stable(a, b, boxes, l.index as int);
                lemma_leaves_stable(a, b, boxes, r.index as int);
                let ax = choose|ax: int| 0 <= ax < 3 && #[trigger] ordered_along(leaves(a, l.index as int), leaves(a, r.index as int), boxes, ax);
                assert(ordered_along(leaves(b, l.index as int), leaves(b, r.index as int), boxes, ax));
            },
        }
    }
}

/// The box of a well-formed node encloses the box of every primitive under it.
proof fn lemma_node_box_encloses(nodes: Seq<BvhNode>, boxes: Seq<AABB>, i: int, j: usize)
    requires
        nodes_wf(nodes, boxes),
        0 <= i < nodes.len(),
        leaves(nodes, i).count(j) > 0,
    ensures
        j < boxes.len(),
        contains(nodes[i].aabb, boxes[j as int]),
    decreases i,
{
    assert(node_wf(nodes, boxes, i));
    match nodes[i].kind {
        NodeKind::Leaf(k) => {
            assert(k == j);
        },
        NodeKind::Inner(l, r) => {
            let lb = nodes[l.index as int].aabb;
            let rb = nodes[r.index as int].aabb;
            lemma_union_tightest(lb, rb, lb);
            if leaves(nodes, l.index as int).count(j) > 0 {
                lemma_node_box_encloses(nodes, boxes, l.index as int, j);
            } else {
                lemma_node_box_encloses(nodes, boxes, r.index as int, j);
            }
        },
    }
}

/// `c` encloses every box of `boxes`.
pub open spec fn encloses_all(c: AABB, boxes: Seq<AABB>) -> bool {
    forall|j: int| 0 <= j < boxes.len() ==> contains(c, #[trigger] boxes[j])
}

/// A box that encloses every primitive's box encloses every node's box.
proof fn lemma_node_box_tightest(nodes: Seq<BvhNode>, boxes: Seq<AABB>, i: int, c: AABB)
    requires
        nodes_wf(nodes, boxes),
        0 <= i < nodes.len(),
        encloses_all(c, boxes),
    ensures
        contains(c, nodes[i].aabb),
    decreases i,
{
    assert(node_wf(nodes, boxes, i));
    match nodes[i].kind {
        NodeKind::Leaf(j) => {
            assert(contains(c, boxes[j as int]));
        },
        NodeKind::Inner(l, r) => {
            lemma_node_box_tightest(nodes, boxes, l.index as int, c);
            lemma_node_box_tightest(nodes, boxes, r.index as int, c);
            lemma_union_tightest(nodes[l.index as int].aabb, nodes[r.index as int].aabb, c);
        },
    }
}

/// `items` sorted by [`axis_key`] along `axis`, stably.
fn sort_along(items: &Vec<usize>, boxes: &Vec<AABB>, axis: usize) -> (r: Vec<usize>)
    requires
        axis < 3,
        forall|k: int| 0 <= k < items.len() ==> items[k] < boxes.len(),
    ensures
        r@.to_multiset() == items@.to_multiset(),
        r.len() == items.len(),
        forall|k: int| 0 <= k < r.len() ==> r[k] < boxes.len(),
        forall|a: int, b: int|
            0 <= a < b < r.len() ==> axis_key(boxes[r[a] as int], axis as int) <= axis_key(
                boxes[r[b] as int],
                axis as int,
            ),
{
    let mut r: Vec<usize> = Vec::new();
    let mut i: usize = 0;
    while i < items.len()
        invariant
            axis < 3,
            i <= items.len(),
            forall|k: int| 0 <= k < items.len() ==> items[k] < boxes.len(),
            r@.to_multiset() == items@.subrange(0, i as int).to_multiset(),
            r.len() == i,
            forall|k: int| 0 <= k < r.len() ==> r[k] < boxes.len(),
            forall|a: int, b: int|
                0 <= a < b < r.len() ==> axis_key(boxes[r[a] as int], axis as int) <= axis_key(
                    boxes[r[b] as int],
                    axis as int,
                ),
        decreases items.len() - i,
    {
        let x = items[i];
        let kx = boxes[x].min.coord(axis).key;
        let mut p: usize = 0;
        while p < r.len() && boxes[r[p]].min.coord(axis).key <= kx
            invariant
                axis < 3,
                p <= r.len(),
                forall|k: int| 0 <= k < r.len() ==> r[k] < boxes.len(),
                forall|q: int| 0 <= q < p ==> axis_key(boxes[r[q] as int], axis as int) <= kx,
            decreases r.len() - p,
        {
            p = p + 1;
        }
        let ghost before = r@;
        r.insert(p, x);
        assert(items@.subrange(0, i + 1) == items@.subrange(0, i as int).push(x));
        assert forall|a: int, b: int| 0 <= a < b < r.len() implies axis_key(
            boxes[r[a] as int],
            axis as int,
        ) <= axis_key(boxes[r[b] as int], axis as int) by {
            if p < before.len() {
                assert(axis_key(boxes[before[p as int] as int], axis as int) > kx);
            }
        }
        i = i + 1;
    }
    assert(items@.subrange(0, items.len() as int) == items@);
    r
}

/// Sorts `items` along `axis` and cuts them at the midpoint: the left part
/// gets half of them (rounded down), and no item of it comes later along
/// `axis` than any item of the right part.
pub fn split_along(items: &Vec<usize>, boxes: &Vec<AABB>, axis: usize) -> (r: (Vec<usize>, Vec<usize>))
    requires
        axis < 3,
        items.len() >= 2,
        forall|k: int| 0 <= k < items.len() ==> items[k] < boxes.len(),
    ensures
        r.0.len() == items.len() / 2,
        r.1.len() == items.len() - items.len() / 2,
        r.0@.to_multiset().add(r.1@.to_multiset()) == items@.to_multiset(),
        ordered_along(r.0@.to_multiset(), r.1@.to_multiset(), boxes@, axis as int),
        forall|k: int| 0 <= k < r.0.len() ==> r.0[k] < boxes.len(),
        forall|k: int| 0 <= k < r.1.len() ==> r.1[k] < boxes.len(),
{
    let sorted = sort_along(items, boxes, axis);
    let half = sorted.len() / 2;
    let mut left_items: Vec<usize> = Vec::new();
    let mut right_items: Vec<usize> = Vec::new();
    let mut k: usize = 0;
    while k < sorted.len()
        invariant
            1 <= half < sorted.len(),
            k <= sorted.len(),
            left_items@ == sorted@.subrange(0, if k < half { k as int } else { half as int }),
            right_items@ == sorted@.subrange(half as int, if k < half { half as int } else { k as int }),
        decreases sorted.len() - k,
    {
        if k < half {
            left_items.push(sorted[k]);
        } else {
            right_items.push(sorted[k]);
        }
        k = k + 1;
    }
    proof {
        assert(sorted@ == left_items@ + right_items@);
        lemma_multiset_commutative(left_items@, right_items@);
        assert forall|j: usize, k: usize|
            #[trigger] left_items@.to_multiset().count(j) > 0 && #[trigger] right_items@.to_multiset().count(k) > 0
            implies axis_key(boxes@[j as int], axis as int) <= axis_key(boxes@[k as int], axis as int) by {
            assert(left_items@.contains(j));
            assert(right_items@.contains(k));
            let p = choose|p: int| 0 <= p < left_items.len() && left_items@[p] == j;
            let q = choose|q: int| 0 <= q < right_items.len() && right_items@[q] == k;
            assert(sorted@[p] == j);
            assert(sorted@[half + q] == k);
        }
    }
    (left_items, right_items)
}

/// A bounding-volume hierarchy over primitives numbered `0..n`, stored as a
/// flat arena of nodes in which children come before their parent.
pub struct BvhTree {
    nodes: Vec<BvhNode>,
    root: NodeId,
    bounds: Ghost<Seq<AABB>>,
}

impl BvhTree {
    /// The box of each primitive, by primitive index.
    pub closed spec fn bounds(&self) -> Seq<AABB> {
        self.bounds@
    }

    /// The node arena.
    pub closed spec fn nodes(&self) -> Seq<BvhNode> {
        self.nodes@
    }

    /// Index of the root node.
    pub closed spec fn root_index(&self) -> int {
        self.root.index as int
    }

    pub open spec fn wf(&self) -> bool {
        &&& nodes_wf(self.nodes(), self.bounds())
        &&& 0 <= self.root_index() < self.nodes().len()
        &&& self.bounds().len() <= usize::MAX
        &&& self.primitives() == all_below(self.bounds().len())
    }

    /// The primitives in the tree, with multiplicity.
    pub open spec fn primitives(&self) -> Multiset<usize> {
        leaves(self.nodes(), self.root_index())
    }

    /// Builds a tree over the primitives whose bounding boxes are `boxes`,
    /// one per primitive; every primitive must have one. The tree holds each
    /// primitive once, in a leaf of its own; each inner node splits its
    /// primitives in halves that are separated along one axis.
    pub fn new(boxes: &Vec<Option<AABB>>) -> (t: BvhTree)
        requires
            boxes.len() > 0,
            forall|k: int| 0 <= k < boxes.len() ==> boxes[k] is Some,
        ensures
            t.wf(),
            nodes_split(t.nodes(), t.bounds()),
            t.nodes().len() == 2 * boxes.len() - 1,
            t.bounds().len() == boxes.len(),
            forall|k: int| 0 <= k < boxes.len() ==> boxes[k] == Some(t.bounds()[k]),
            forall|j: usize| #[trigger] t.primitives().count(j) == if j < boxes.len() {
                1nat
            } else {
                0nat
            },
    {
        let mut found: Vec<AABB> = Vec::new();
        let mut items: Vec<usize> = Vec::new();
        let mut i: usize = 0;
        while i < boxes.len()
            invariant
                i <= boxes.len(),
                forall|k: int| 0 <= k < boxes.len() ==> boxes[k] is Some,
                found.len() == i,
                items@ == Seq::new(i as nat, |k: int| k as usize),
                forall|k: int| 0 <= k < i ==> boxes[k] == Some(found[k]),
            decreases boxes.len() - i,
        {
            let b = boxes[i].unwrap();
            found.push(b);
            items.push(i);
            proof {
                assert(items@ == Seq::new((i + 1) as nat, |k: int| k as usize));
            }
            i = i + 1;
        }
        let mut tree = BvhTree { nodes: Vec::new(), root: NodeId { index: 0 }, bounds: Ghost(found@) };
        let root = tree.build(items, &found);
        tree.root = root;
        proof {
            assert(items@ =~= Seq::new(boxes.len() as nat, |k: int| k as usize));
            assert(tree.primitives() =~= all_below(boxes.len() as nat));
            assert forall|j: usize| #[trigger] tree.primitives().count(j) == if j < boxes.len() {
                1nat
            } else {
                0nat
            } by {
                lemma_count_of_range(boxes.len() as nat, j);
            }
        }
        tree
    }

    /// Builds the subtree over `items`: chooses an axis at random, sorts the
    /// items along it, and either makes a leaf of a single item or splits the
    /// sorted items at the midpoint and joins the two subtrees under a new
    /// inner node.
    fn build(&mut self, items: Vec<usize>, boxes: &Vec<AABB>) -> (r: NodeId)
        requires
            old(self).bounds@ == boxes@,
            nodes_wf(old(self).nodes@, boxes@),
            nodes_split(old(self).nodes@, boxes@),
            items.len() >= 1,
            forall|k: int| 0 <= k < items.len() ==> items[k] < boxes.len(),
        ensures
            final(self).bounds@ == boxes@,
            nodes_wf(final(self).nodes@, boxes@),
            nodes_split(final(self).nodes@, boxes@),
            final(self).nodes.len() == old(self).nodes.len() + 2 * items.len() - 1,
            final(self).nodes@.subrange(0, old(self).nodes.len() as int) == old(self).nodes@,
            r.index == final(self).nodes.len() - 1,
            leaves(final(self).nodes@, r.index as int) == items@.to_multiset(),
        decreases items.len(),
    {
        let axis = random_below(3);
        if items.len() == 1 {
            proof {
                assert(items@ == Seq::<usize>::empty().push(items[0]));
            }
            return self.new_leaf(items[0], boxes);
        }
        let (left_items, right_items) = split_along(&items, boxes, axis);
        let ghost n0 = self.nodes@;
        let left = self.build(left_items, boxes);
        let ghost n1 = self.nodes@;
        let right = self.build(right_items, boxes);
        let ghost n2 = self.nodes@;
        proof {
            lemma_leaves_stable(n1, n2, boxes@, left.index as int);
            assert(n2.subrange(0, n0.len() as int) == n0) by {
                assert(n2.subrange(0, n0.len() as int) == n2.subrange(0, n1.len() as int).subrange(0, n0.len() as int));
            }
        }
        let aabb = self.nodes[left.index].aabb.surrounding_box(&self.nodes[right.index].aabb);
        self.new_node(aabb, left, right, boxes, Ghost(axis as int))
    }

    /// The nearest hit of a ray among the primitives of the tree.
    ///
    /// `box_hit` tells whether the ray meets a box within the query's
    /// parameter window; `prim_hit` intersects the ray with one primitive and
    /// returns the hit's distance along the ray, with whatever record the
    /// caller wants back. Subtrees whose box the ray misses are skipped;
    /// otherwise both children are searched with the same window and the
    /// nearer hit is kept (the right one on a tie).
    ///
    /// Provided that every box enclosing a primitive's box is met whenever the
    /// primitive itself is hit, the result is the nearest hit over all
    /// primitives, exactly as a scan over every primitive would find it; and
    /// a primitive is only ever reported when the ray meets its own box.
    pub fn hits<H, B, P>(&self, box_hit: &B, prim_hit: &P) -> (r: Option<(usize, Scalar, H)>) where
        B: Fn(AABB) -> bool,
        P: Fn(usize) -> Option<(Scalar, H)>,

        requires
            self.wf(),
            forall|b: AABB| box_hit.requires((b,)),
            forall|j: usize| prim_hit.requires((j,)),
            deterministic(box_hit),
            deterministic(prim_hit),
            conservative(box_hit, prim_hit, self.bounds()),
        ensures
            r == traverse(self.nodes(), self.root_index(), box_hit, prim_hit),
            nearest_of(r, self.primitives(), prim_hit),
            r matches Some((j, t, h)) ==> box_hit.ensures((self.bounds()[j as int],), true),
    {
        self.hit_node(self.root.index, box_hit, prim_hit)
    }

    /// Id of the root node.
    pub fn root(&self) -> (r: NodeId)
        ensures
            r.index == self.root_index(),
    {
        self.root
    }

    /// Number of nodes in the arena.
    pub fn node_count(&self) -> (r: usize)
        ensures
            r == self.nodes().len(),
    {
        self.nodes.len()
    }

    /// The node with the given id.
    pub fn node(&self, id: NodeId) -> (r: &BvhNode)
        requires
            id.index < self.nodes().len(),
        ensures
            *r == self.nodes()[id.index as int],
    {
        &self.nodes[id.index]
    }

    /// The box of the root node, which encloses the box of every primitive.
    pub fn bounding_box(&self) -> (r: Option<AABB>)
        requires
            self.wf(),
        ensures
            r == Some(self.nodes()[self.root_index()].aabb),
            forall|j: usize| j < self.bounds().len() ==> contains(r.unwrap(), #[trigger] self.bounds()[j as int]),
            forall|c: AABB| encloses_all(c, self.bounds()) ==> contains(c, r.unwrap()),
    {
        proof {
            assert forall|c: AABB| encloses_all(c, self.bounds()) implies contains(c, self.nodes@[self.root.index as int].aabb) by {
                lemma_node_box_tightest(self.nodes@, self.bounds@, self.root.index as int, c);
            }
            assert forall|j: usize| j < self.bounds().len() implies contains(self.nodes@[self.root.index as int].aabb, #[trigger] self.bounds()[j as int]) by {
                lemma_count_of_range(self.bounds().len(), j);
                lemma_node_box_encloses(self.nodes@, self.bounds@, self.root.index as int, j);
            }
        }
        Some(self.nodes[self.root.index].aabb)
    }

    /// Number of primitives in the tree.
    pub fn number_hittables(&self) -> (r: usize)
        requires
            self.wf(),
        ensures
            r == self.primitives().len(),
            r == self.bounds().len(),
    {
        proof {
            assert(Seq::new(self.bounds().len(), |k: int| k as usize).len() == self.bounds().len());
        }
        self.count_under(self.root.index)
    }

    fn count_under(&self, id: usize) -> (r: usize)
        requires
            nodes_wf(self.nodes@, self.bounds@),
            id < self.nodes.len(),
            leaves(self.nodes@, id as int).len() <= usize::MAX,
        ensures
            r == leaves(self.nodes@, id as int).len(),
        decreases id,
    {
        proof {
            assert(node_wf(self.nodes@, self.bounds@, id as int));
        }
        match self.nodes[id].kind {
            NodeKind::Leaf(_) => 1,
            NodeKind::Inner(l, r) => {
                let a = self.count_under(l.index);
                let b = self.count_under(r.index);
                a + b
            },
        }
    }

    fn hit_node<H, B, P>(&self, id: usize, box_hit: &B, prim_hit: &P) -> (r: Option<(usize, Scalar, H)>) where
        B: Fn(AABB) -> bool,
        P: Fn(usize) -> Option<(Scalar, H)>,

        requires
            nodes_wf(self.nodes@, self.bounds@),
            id < self.nodes.len(),
            forall|b: AABB| box_hit.requires((b,)),
            forall|j: usize| prim_hit.requires((j,)),
            deterministic(box_hit),
            deterministic(prim_hit),
            conservative(box_hit, prim_hit, self.bounds@),
        ensures
            r == traverse(self.nodes@, id as int, box_hit, prim_hit),
            nearest_of(r, leaves(self.nodes@, id as int), prim_hit),
            r matches Some((j, t, h)) ==> j < self.bounds@.len() && box_hit.ensures((self.bounds@[j as int],), true),
        decreases id,
    {
        let node = &self.nodes[id];
        proof {
            assert(node_wf(self.nodes@, self.bounds@, id as int));
        }
        let met = box_hit(node.aabb);
        proof {
            assert(box_result(box_hit, node.aabb) == met);
        }
        if !met {
            proof {
                assert forall|j: usize, t: Scalar, h: H|
                    leaves(self.nodes@, id as int).count(j) > 0 implies !#[trigger] prim_hit.ensures((j,), Some((t, h))) by {
                    lemma_node_box_encloses(self.nodes@, self.bounds@, id as int, j);
                }
            }
            return None;
        }
        match node.kind {
            NodeKind::Leaf(j) => {
                let found = prim_hit(j);
                proof {
                    assert(prim_result(prim_hit, j) == found);
                }
                match found {
                    Some((t, h)) => Some((j, t, h)),
                    None => None,
                }
            },
            NodeKind::Inner(l, r) => {
                let hit_left = self.hit_node(l.index, box_hit, prim_hit);
                let hit_right = self.hit_node(r.index, box_hit, prim_hit);
                match hit_left {
                    Some((lj, lt, lh)) => match hit_right {
                        Some((rj, rt, rh)) => if lt.lt(rt) {
                            Some((lj, lt, lh))
                        } else {
                            Some((rj, rt, rh))
                        },
                        None => Some((lj, lt, lh)),
                    },
                    None => hit_right,
                }
            },
        }
    }

    fn new_leaf(&mut self, prim: usize, boxes: &Vec<AABB>) -> (r: NodeId)
        requires
            old(self).bounds@ == boxes@,
            nodes_wf(old(self).nodes@, boxes@),
            nodes_split(old(self).nodes@, boxes@),
            prim < boxes.len(),
        ensures
            final(self).bounds@ == boxes@,
            nodes_wf(final(self).nodes@, boxes@),
            nodes_split(final(self).nodes@, boxes@),
            final(self).nodes@ == old(self).nodes@.push(final(self).nodes@.last()),
            r.index == old(self).nodes.len(),
            leaves(final(self).nodes@, r.index as int) == Multiset::singleton(prim),
    {
        let index = self.nodes.len();
        self.nodes.push(BvhNode { aabb: boxes[prim], kind: NodeKind::Leaf(prim) });
        proof {
            assert forall|i: int| 0 <= i < self.nodes@.len() implies #[trigger] node_wf(self.nodes@, boxes@, i) by {
                if i < index {
                    assert(node_wf(old(self).nodes@, boxes@, i));
                }
            }
            assert(self.nodes@.subrange(0, index as int) == old(self).nodes@);
            lemma_split_stable(old(self).nodes@, self.nodes@, boxes@);
        }
        NodeId { index }
    }

    fn new_node(&mut self, aabb: AABB, left: NodeId, right: NodeId, boxes: &Vec<AABB>, axis: Ghost<int>) -> (r: NodeId)
        requires
            old(self).bounds@ == boxes@,
            nodes_wf(old(self).nodes@, boxes@),
            nodes_split(old(self).nodes@, boxes@),
            0 <= axis@ < 3,
            ordered_along(leaves(old(self).nodes@, left.index as int), leaves(old(self).nodes@, right.index as int), boxes@, axis@),
            leaves(old(self).nodes@, left.index as int).len() == (leaves(old(self).nodes@, left.index as int).len()
                + leaves(old(self).nodes@, right.index as int).len()) / 2,
            left.index < old(self).nodes.len(),
            right.index < old(self).nodes.len(),
            aabb == union(old(self).nodes@[left.index as int].aabb, old(self).nodes@[right.index as int].aabb),
        ensures
            final(self).bounds@ == boxes@,
            nodes_wf(final(self).nodes@, boxes@),
            nodes_split(final(self).nodes@, boxes@),
            final(self).nodes@ == old(self).nodes@.push(final(self).nodes@.last()),
            r.index == old(self).nodes.len(),
            leaves(final(self).nodes@, r.index as int) == leaves(old(self).nodes@, left.index as int).add(
                leaves(old(self).nodes@, right.index as int),
            ),
    {
        let index = self.nodes.len();
        self.nodes.push(BvhNode { aabb, kind: NodeKind::Inner(left, right) });
        proof {
            assert forall|i: int| 0 <= i < self.nodes@.len() implies #[trigger] node_wf(self.nodes@, boxes@, i) by {
                if i < index {
                    assert(node_wf(old(self).nodes@, boxes@, i));
                }
            }
            assert(self.nodes@.subrange(0, index as int) == old(self).nodes@);
            lemma_leaves_stable(old(self).nodes@, self.nodes@, boxes@, left.index as int);
            lemma_leaves_stable(old(self).nodes@, self.nodes@, boxes@, right.index as int);
            lemma_split_stable(old(self).nodes@, self.nodes@, boxes@);
            assert(ordered_along(leaves(self.nodes@, left.index as int), leaves(self.nodes@, right.index as int), boxes@, axis@));
            assert(node_split(self.nodes@, boxes@, index as int));
        }
        NodeId { index }
    }
}

/// A function that relates each argument to at most one result.
pub open spec fn deterministic<A, R, F: Fn(A) -> R>(f: &F) -> bool {
    forall|a: A, r1: R, r2: R| #[trigger] f.ensures((a,), r1) && #[trigger] f.ensures((a,), r2) ==> r1 == r2
}

/// What `box_hit` says of box `b`.
pub open spec fn box_result<B: Fn(AABB) -> bool>(box_hit: &B, b: AABB) -> bool {
    choose|o: bool| box_hit.ensures((b,), o)
}

/// What `prim_hit` says of primitive `j`.
pub open spec fn prim_result<H, P: Fn(usize) -> Option<(Scalar, H)>>(prim_hit: &P, j: usize) -> Option<(Scalar, H)> {
    choose|o: Option<(Scalar, H)>| prim_hit.ensures((j,), o)
}

/// The nearer of two hits; the second one on a tie.
pub open spec fn nearer<H>(a: Option<(usize, Scalar, H)>, b: Option<(usize, Scalar, H)>) -> Option<(usize, Scalar, H)> {
    match a {
        Some((_, at, _)) => match b {
            Some((_, bt, _)) => if at.key < bt.key {
                a
            } else {
                b
            },
            None => a,
        },
        None => b,
    }
}

/// The answer of the traversal from node `i`: nothing where the node's box
/// is missed; at a leaf, what the primitive test reports; at an inner node,
/// the nearer of the two children's answers, the right one on a tie.
pub open spec fn traverse<H, B: Fn(AABB) -> bool, P: Fn(usize) -> Option<(Scalar, H)>>(
    nodes: Seq<BvhNode>,
    i: int,
    box_hit: &B,
    prim_hit: &P,
) -> Option<(usize, Scalar, H)>
    decreases i,
{
    if i < 0 || i >= nodes.len() || !box_result(box_hit, nodes[i].aabb) {
        None
    } else {
        match nodes[i].kind {
            NodeKind::Leaf(j) => match prim_result(prim_hit, j) {
                Some((t, h)) => Some((j, t, h)),
                None => None,
            },
            NodeKind::Inner(l, r) => if l.index < i && r.index < i {
                nearer(
                    traverse(nodes, l.index as int, box_hit, prim_hit),
                    traverse(nodes, r.index as int, box_hit, prim_hit),
                )
            } else {
                None
            },
        }
    }
}

/// Whenever `prim_hit` reports a hit on primitive `j`, `box_hit` does not
/// report a miss on any box that encloses `j`'s box.
pub open spec fn conservative<H, B: Fn(AABB) -> bool, P: Fn(usize) -> Option<(Scalar, H)>>(
    box_hit: &B,
    prim_hit: &P,
    bounds: Seq<AABB>,
) -> bool {
    forall|j: usize, t: Scalar, h: H, b: AABB|
        j < bounds.len() && #[trigger] prim_hit.ensures((j,), Some((t, h))) && contains(b, bounds[j as int])
            ==> !#[trigger] box_hit.ensures((b,), false)
}

/// `r` is the nearest hit that `prim_hit` reports among the primitives of
/// `prims`, or `None` where it reports a hit on none of them.
pub open spec fn nearest_of<H, P: Fn(usize) -> Option<(Scalar, H)>>(
    r: Option<(usize, Scalar, H)>,
    prims: Multiset<usize>,
    prim_hit: &P,
) -> bool {
    match r {
        Some((j, t, h)) => {
            &&& prims.count(j) > 0
            &&& prim_hit.ensures((j,), Some((t, h)))
            &&& forall|j2: usize, t2: Scalar, h2: H|
                prims.count(j2) > 0 && #[trigger] prim_hit.ensures((j2,), Some((t2, h2))) ==> t.le(t2)
        },
        None => forall|j2: usize, t2: Scalar, h2: H|
            prims.count(j2) > 0 ==> !#[trigger] prim_hit.ensures((j2,), Some((t2, h2))),
    }
}

/// The primitives `0..n`, each once.
pub open spec fn all_below(n: nat) -> Multiset<usize> {
    Seq::new(n, |k: int| k as usize).to_multiset()
}

/// The better of the best hit so far and what primitive `j` reports: the
/// new hit where it is strictly nearer, else the one kept so far.
pub open spec fn keep_nearer<H>(best: Option<(usize, Scalar, H)>, j: usize, found: Option<(Scalar, H)>) -> Option<(usize, Scalar, H)> {
    match found {
        Some((t, h)) => match best {
            Some((bj, bt, bh)) => if t.key < bt.key {
                Some((j, t, h))
            } else {
                best
            },
            None => Some((j, t, h)),
        },
        None => best,
    }
}

/// The answer of the scan over primitives `0..n`: each primitive's hit
/// replaces the one kept so far only where it is strictly nearer, so the
/// earliest of equally near primitives wins.
pub open spec fn scan<H, P: Fn(usize) -> Option<(Scalar, H)>>(prim_hit: &P, n: int) -> Option<(usize, Scalar, H)>
    decreases n,
{
    if n <= 0 {
        None
    } else {
        keep_nearer(scan(prim_hit, n - 1), (n - 1) as usize, prim_result(prim_hit, (n - 1) as usize))
    }
}

proof fn lemma_all_below_step(j: usize)
    ensures
        forall|k: usize| #[trigger] all_below((j + 1) as nat).count(k) == all_below(j as nat).count(k) + if k == j { 1nat } else { 0nat },
{
    assert(Seq::new((j + 1) as nat, |k: int| k as usize) == Seq::new(j as nat, |k: int| k as usize).push(j));
}

proof fn lemma_scan_step<H, P: Fn(usize) -> Option<(Scalar, H)>>(
    prim_hit: &P,
    best: Option<(usize, Scalar, H)>,
    j: usize,
    found: Option<(Scalar, H)>,
)
    requires
        deterministic(prim_hit),
        nearest_of(best, all_below(j as nat), prim_hit),
        prim_hit.ensures((j,), found),
    ensures
        nearest_of(keep_nearer(best, j, found), all_below((j + 1) as nat), prim_hit),
{
    lemma_all_below_step(j);
    let next = keep_nearer(best, j, found);
    let prims = all_below((j + 1) as nat);
    assert forall|j2: usize, t2: Scalar, h2: H| prims.count(j2) > 0 && #[trigger] prim_hit.ensures((j2,), Some((t2, h2))) implies
        (match next { Some((_, t, _)) => t.le(t2), None => false }) by {
        if j2 == j {
            assert(found == Some((t2, h2)));
        } else {
            assert(all_below(j as nat).count(j2) > 0);
        }
    }
    match next {
        Some((nj, nt, nh)) => {
            assert(prims.count(nj) > 0);
        },
        None => {},
    }
}

/// The nearest hit among primitives `0..count`, found by trying every one of
/// them in turn; on a tie the earlier primitive is kept.
pub fn nearest_by_scan<H, P>(count: usize, prim_hit: &P) -> (r: Option<(usize, Scalar, H)>) where
    P: Fn(usize) -> Option<(Scalar, H)>,

    requires
        forall|j: usize| prim_hit.requires((j,)),
        deterministic(prim_hit),
    ensures
        r == scan(prim_hit, count as int),
        nearest_of(r, all_below(count as nat), prim_hit),
{
    let mut best: Option<(usize, Scalar, H)> = None;
    let mut j: usize = 0;
    while j < count
        invariant
            j <= count,
            forall|j: usize| prim_hit.requires((j,)),
            deterministic(prim_hit),
            best == scan(prim_hit, j as int),
            nearest_of(best, all_below(j as nat), prim_hit),
        decreases count - j,
    {
        let found = prim_hit(j);
        let ghost prev = best;
        let ghost seen = found;
        best = match found {
            Some((t, h)) => match best {
                Some((bj, bt, bh)) => if t.lt(bt) {
                    Some((j, t, h))
                } else {
                    Some((bj, bt, bh))
                },
                None => Some((j, t, h)),
            },
            None => best,
        };
        proof {
            assert(best == keep_nearer(prev, j, seen));
            assert(prim_result(prim_hit, j) == seen);
            lemma_scan_step(prim_hit, prev, j, seen);
        }
        j = j + 1;
    }
    best
}

/// Two nearest hits over the same primitives agree: both are absent, or both
/// are at the same distance. In particular a tree holding the primitives
/// `0..n` answers a query with the same nearest distance as a scan over all
/// of them.
pub proof fn lemma_nearest_agrees<H, P: Fn(usize) -> Option<(Scalar, H)>>(
    prims: Multiset<usize>,
    prim_hit: &P,
    r1: Option<(usize, Scalar, H)>,
    r2: Option<(usize, Scalar, H)>,
)
    requires
        nearest_of(r1, prims, prim_hit),
        nearest_of(r2, prims, prim_hit),
    ensures
        r1 is None <==> r2 is None,
        r1 matches Some((j1, t1, h1)) ==> r2 matches Some((j2, t2, h2)) && t1 == t2,
{
    match (r1, r2) {
        (Some((j1, t1, h1)), Some((j2, t2, h2))) => {
            assert(prim_hit.ensures((j2,), Some((t2, h2))));
            assert(prim_hit.ensures((j1,), Some((t1, h1))));
        },
        (Some((j1, t1, h1)), None) => {
            assert(prim_hit.ensures((j1,), Some((t1, h1))));
        },
        (None, Some((j2, t2, h2))) => {
            assert(prim_hit.ensures((j2,), Some((t2, h2))));
        },
        (None, None) => {},
    }
}

/// A well-formed tree over the boxes of `n` primitives answers every query
/// with the same nearest distance as a scan over all `n` of them.
pub proof fn lemma_tree_matches_scan<H, P: Fn(usize) -> Option<(Scalar, H)>>(
    tree: &BvhTree,
    prim_hit: &P,
    from_tree: Option<(usize, Scalar, H)>,
    from_scan: Option<(usize, Scalar, H)>,
)
    requires
        tree.wf(),
        nearest_of(from_tree, tree.primitives(), prim_hit),
        nearest_of(from_scan, all_below(tree.bounds().len()), prim_hit),
    ensures
        from_tree is None <==> from_scan is None,
        from_tree matches Some((j1, t1, h1)) ==> from_scan matches Some((j2, t2, h2)) && t1 == t2,
{
    lemma_nearest_agrees(tree.primitives(), prim_hit, from_tree, from_scan);
}

/// Where no two primitives of a well-formed tree are hit at the same
/// distance, the tree and the scan over all primitives return the very same
/// hit: same primitive, same distance, same record.
pub proof fn lemma_tree_matches_scan_exactly<H, P: Fn(usize) -> Option<(Scalar, H)>>(
    tree: &BvhTree,
    prim_hit: &P,
    from_tree: Option<(usize, Scalar, H)>,
    from_scan: Option<(usize, Scalar, H)>,
)
    requires
        tree.wf(),
        deterministic(prim_hit),
        forall|j1: usize, j2: usize, t1: Scalar, h1: H, t2: Scalar, h2: H|
            j1 != j2 && #[trigger] prim_hit.ensures((j1,), Some((t1, h1))) && #[trigger] prim_hit.ensures(
                (j2,),
                Some((t2, h2)),
            ) ==> t1 != t2,
        nearest_of(from_tree, tree.primitives(), prim_hit),
        nearest_of(from_scan, all_below(tree.bounds().len()), prim_hit),
    ensures
        from_tree == from_scan,
{
    lemma_nearest_agrees(tree.primitives(), prim_hit, from_tree, from_scan);
    match (from_tree, from_scan) {
        (Some((j1, t1, h1)), Some((j2, t2, h2))) => {
            assert(prim_hit.ensures((j1,), Some((t1, h1))));
            assert(prim_hit.ensures((j2,), Some((t2, h2))));
        },
        _ => {},
    }
}

/// Each of `0..n` occurs once in the sequence `0, 1, ..., n - 1`, and no other
/// value occurs in it.
proof fn lemma_count_of_range(n: nat, j: usize)
    requires
        n <= usize::MAX + 1,
    ensures
        Seq::new(n, |k: int| k as usize).to_multiset().count(j) == if j < n { 1nat } else { 0nat },
    decreases n,
{
    if n > 0 {
        let s = Seq::new(n, |k: int| k as usize);
        let p = Seq::new((n - 1) as nat, |k: int| k as usize);
        assert(s == p.push((n - 1) as usize));
        lemma_count_of_range((n - 1) as nat, j);
    } else {
        assert(Seq::new(n, |k: int| k as usize) == Seq::<usize>::empty());
    }
}

} // verus!
