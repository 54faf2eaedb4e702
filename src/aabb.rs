use vstd::prelude::*;

verus! {

/// A point of three coordinates, each held as an order key: an integer whose
/// order is the order of the coordinate it stands for. Taking a minimum, a
/// maximum or a comparison on keys gives exactly what it gives on the
/// coordinates.
pub type Key3 = [i32; 3];

/// An axis-aligned box, given by its least and greatest corner in order keys.
/// The empty box has `min` at the greatest key and `max` at the least.
#[derive(Clone, Copy, Debug)]
pub struct Aabb {
    pub min: Key3,
    pub max: Key3,
}

/// The smaller of two keys.
pub open spec fn key_min(a: i32, b: i32) -> i32 {
    if a <= b { a } else { b }
}

/// The larger of two keys.
pub open spec fn key_max(a: i32, b: i32) -> i32 {
    if a >= b { a } else { b }
}

impl Aabb {
    /// `self` holds `other` on every axis.
    pub open spec fn spec_contains(&self, other: &Aabb) -> bool {
        &&& self.min[0] <= other.min[0] && other.max[0] <= self.max[0]
        &&& self.min[1] <= other.min[1] && other.max[1] <= self.max[1]
        &&& self.min[2] <= other.min[2] && other.max[2] <= self.max[2]
    }

    /// `self` holds the point `p` on every axis.
    pub open spec fn spec_contains_point(&self, p: Key3) -> bool {
        &&& self.min[0] <= p[0] && p[0] <= self.max[0]
        &&& self.min[1] <= p[1] && p[1] <= self.max[1]
        &&& self.min[2] <= p[2] && p[2] <= self.max[2]
    }

    /// The smallest box that holds both `self` and `other`.
    pub open spec fn spec_union(&self, other: &Aabb) -> Aabb {
        Aabb {
            min: [
                key_min(self.min[0], other.min[0]),
                key_min(self.min[1], other.min[1]),
                key_min(self.min[2], other.min[2]),
            ],
            max: [
                key_max(self.max[0], other.max[0]),
                key_max(self.max[1], other.max[1]),
                key_max(self.max[2], other.max[2]),
            ],
        }
    }

    pub open spec fn spec_empty() -> Aabb {
        Aabb { min: [i32::MAX, i32::MAX, i32::MAX], max: [i32::MIN, i32::MIN, i32::MIN] }
    }

    /// The empty box: every box holds it, and extending it by a box gives
    /// that box.
    pub fn empty() -> (r: Aabb)
        ensures
            r == Aabb::spec_empty(),
    {
        Aabb { min: [i32::MAX, i32::MAX, i32::MAX], max: [i32::MIN, i32::MIN, i32::MIN] }
    }

    /// Grows the box to hold the point `p`.
    pub fn add_point(&mut self, p: Key3)
        ensures
            *final(self) == old(self).spec_union(&Aabb { min: p, max: p }),
    {
        let q = Aabb { min: p, max: p };
        self.extend(&q);
    }

    /// Grows the box to hold `other`.
    pub fn extend(&mut self, other: &Aabb)
        ensures
            *final(self) == old(self).spec_union(other),
    {
        let lo = [
            if self.min[0] <= other.min[0] { self.min[0] } else { other.min[0] },
            if self.min[1] <= other.min[1] { self.min[1] } else { other.min[1] },
            if self.min[2] <= other.min[2] { self.min[2] } else { other.min[2] },
        ];
        let hi = [
            if self.max[0] >= other.max[0] { self.max[0] } else { other.max[0] },
            if self.max[1] >= other.max[1] { self.max[1] } else { other.max[1] },
            if self.max[2] >= other.max[2] { self.max[2] } else { other.max[2] },
        ];
        self.min = lo;
        self.max = hi;
    }

    /// Whether `self` holds `other` on every axis.
    pub fn contains(&self, other: &Aabb) -> (r: bool)
        ensures
            r == self.spec_contains(other),
    {
        let r = self.min[0] <= other.min[0] && other.max[0] <= self.max[0]
            && self.min[1] <= other.min[1] && other.max[1] <= self.max[1]
            && self.min[2] <= other.min[2] && other.max[2] <= self.max[2];
        r
    }
}

/// The empty box is neutral: every box holds it, and the union of it with
/// a box is that box.
pub proof fn lemma_empty_is_neutral(b: Aabb)
    ensures
        b.spec_contains(&Aabb::spec_empty()),
        Aabb::spec_empty().spec_union(&b) == b,
{
    broadcast use vstd::array::axiom_array_ext_equal;
    let u = Aabb::spec_empty().spec_union(&b);
    assert(u.min =~= b.min);
    assert(u.max =~= b.max);
}

/// The union of two boxes holds each of them, and a box that holds both
/// holds their union.
pub proof fn lemma_union_bounds(a: Aabb, b: Aabb, c: Aabb)
    ensures
        a.spec_union(&b).spec_contains(&a),
        a.spec_union(&b).spec_contains(&b),
        c.spec_contains(&a) && c.spec_contains(&b) ==> c.spec_contains(&a.spec_union(&b)),
{
}

/// Holding is transitive.
pub proof fn lemma_contains_trans(a: Aabb, b: Aabb, c: Aabb)
    requires
        a.spec_contains(&b),
        b.spec_contains(&c),
    ensures
        a.spec_contains(&c),
{
}

} // verus!
