use vstd::prelude::*;

use crate::scalar::Scalar;

verus! {

/// Three coordinates of a point, one [`Scalar`] per axis.
#[derive(Clone, Copy, Debug, PartialEq, Eq, Structural)]
pub struct Coords {
    pub x: Scalar,
    pub y: Scalar,
    pub z: Scalar,
}

impl Coords {
    pub fn new(x: Scalar, y: Scalar, z: Scalar) -> (r: Coords)
        ensures
            r == (Coords { x, y, z }),
    {
        Coords { x, y, z }
    }

    /// Coordinate along `axis` (0 = x, 1 = y, 2 = z).
    pub open spec fn at(self, axis: int) -> Scalar {
        if axis == 0 {
            self.x
        } else if axis == 1 {
            self.y
        } else {
            self.z
        }
    }

    /// Every coordinate of `self` is at most the matching one of `other`.
    pub open spec fn le(self, other: Coords) -> bool {
        &&& self.x.le(other.x)
        &&& self.y.le(other.y)
        &&& self.z.le(other.z)
    }

    pub fn coord(&self, axis: usize) -> (r: Scalar)
        requires
            axis < 3,
        ensures
            r == self.at(axis as int),
    {
        if axis == 0 {
            self.x
        } else if axis == 1 {
            self.y
        } else {
            self.z
        }
    }
}

/// An axis-aligned bounding box given by its minimum and maximum corners.
#[derive(Clone, Copy, Debug, PartialEq, Eq, Structural)]
pub struct AABB {
    pub min: Coords,
    pub max: Coords,
}

/// `outer` encloses `inner`.
pub open spec fn contains(outer: AABB, inner: AABB) -> bool {
    outer.min.le(inner.min) && inner.max.le(outer.max)
}

/// The union box of `a` and `b`: componentwise minimum of the minimum
/// corners and componentwise maximum of the maximum corners.
pub open spec fn union(a: AABB, b: AABB) -> AABB {
    AABB {
        min: Coords {
            x: if a.min.x.le(b.min.x) { a.min.x } else { b.min.x },
            y: if a.min.y.le(b.min.y) { a.min.y } else { b.min.y },
            z: if a.min.z.le(b.min.z) { a.min.z } else { b.min.z },
        },
        max: Coords {
            x: if b.max.x.le(a.max.x) { a.max.x } else { b.max.x },
            y: if b.max.y.le(a.max.y) { a.max.y } else { b.max.y },
            z: if b.max.z.le(a.max.z) { a.max.z } else { b.max.z },
        },
    }
}

impl AABB {
    /// The minimum corner is at most the maximum corner on every axis.
    pub open spec fn wf(self) -> bool {
        self.min.le(self.max)
    }

    pub fn new(min: Coords, max: Coords) -> (r: AABB)
        ensures
            r == (AABB { min, max }),
    {
        AABB { min, max }
    }

    /// The smallest box that encloses both `self` and `other`.
    pub fn surrounding_box(&self, other: &AABB) -> (r: AABB)
        ensures
            r == union(*self, *other),
            self.wf() && other.wf() ==> r.wf(),
    {
        let small = Coords::new(
            self.min.x.lesser(other.min.x),
            self.min.y.lesser(other.min.y),
            self.min.z.lesser(other.min.z),
        );
        let big = Coords::new(
            self.max.x.greater(other.max.x),
            self.max.y.greater(other.max.y),
            self.max.z.greater(other.max.z),
        );
        AABB::new(small, big)
    }
}

/// Union of the first `n` boxes of a non-empty sequence, folded from the left.
pub open spec fn union_prefix(boxes: Seq<AABB>, n: int) -> AABB
    decreases n,
{
    if n <= 1 {
        boxes[0]
    } else {
        union(union_prefix(boxes, n - 1), boxes[n - 1])
    }
}

/// A box that encloses each of the first `n` boxes encloses their union.
pub proof fn lemma_union_prefix_tightest(boxes: Seq<AABB>, n: int, c: AABB)
    requires
        1 <= n <= boxes.len(),
        forall|k: int| 0 <= k < n ==> contains(c, #[trigger] boxes[k]),
    ensures
        contains(c, union_prefix(boxes, n)),
    decreases n,
{
    if n > 1 {
        lemma_union_prefix_tightest(boxes, n - 1, c);
        lemma_union_tightest(union_prefix(boxes, n - 1), boxes[n - 1], c);
    }
}

/// The box that encloses every box of the list: `None` for an empty list,
/// or where some entry has no box.
pub fn bounding_box_of_all(boxes: &Vec<Option<AABB>>) -> (r: Option<AABB>)
    ensures
        r is Some <==> (boxes.len() > 0 && forall|k: int| 0 <= k < boxes.len() ==> boxes[k] is Some),
        r matches Some(b) ==> b == union_prefix(boxes@.map_values(|o: Option<AABB>| o.unwrap()), boxes.len() as int),
        r matches Some(b) ==> forall|k: int| 0 <= k < boxes.len() ==> contains(b, #[trigger] boxes[k].unwrap()),
{
    if boxes.len() == 0 {
        return None;
    }
    let ghost all = boxes@.map_values(|o: Option<AABB>| o.unwrap());
    let mut bx = match boxes[0] {
        Some(b) => b,
        None => return None,
    };
    let mut i: usize = 1;
    while i < boxes.len()
        invariant
            1 <= i <= boxes.len(),
            all == boxes@.map_values(|o: Option<AABB>| o.unwrap()),
            forall|k: int| 0 <= k < i ==> boxes[k] is Some,
            bx == union_prefix(all, i as int),
            forall|k: int| 0 <= k < i ==> contains(bx, #[trigger] boxes[k].unwrap()),
        decreases boxes.len() - i,
    {
        let next = match boxes[i] {
            Some(b) => b,
            None => return None,
        };
        let ghost prev = bx;
        bx = bx.surrounding_box(&next);
        proof {
            lemma_union_tightest(prev, next, prev);
            assert forall|k: int| 0 <= k < i + 1 implies contains(bx, #[trigger] boxes[k].unwrap()) by {
                if k < i {
                    lemma_contains_transitive(bx, prev, boxes[k].unwrap());
                }
            }
        }
        i = i + 1;
    }
    Some(bx)
}

/// Every box encloses itself.
pub proof fn lemma_contains_reflexive(a: AABB)
    ensures
        contains(a, a),
{
}

/// Enclosure is transitive.
pub proof fn lemma_contains_transitive(a: AABB, b: AABB, c: AABB)
    requires
        contains(a, b),
        contains(b, c),
    ensures
        contains(a, c),
{
}

/// The union of two boxes encloses both of them, and it is enclosed by every
/// box that encloses both: it is the tightest such box.
pub proof fn lemma_union_tightest(a: AABB, b: AABB, c: AABB)
    ensures
        contains(union(a, b), a),
        contains(union(a, b), b),
        contains(c, a) && contains(c, b) ==> contains(c, union(a, b)),
{
}

/// Union is commutative.
pub proof fn lemma_union_commutative(a: AABB, b: AABB)
    ensures
        union(a, b) == union(b, a),
{
}

/// Union is associative.
pub proof fn lemma_union_associative(a: AABB, b: AABB, c: AABB)
    ensures
        union(union(a, b), c) == union(a, union(b, c)),
{
}

} // verus!
