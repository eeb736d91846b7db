use vstd::prelude::*;

verus! {

/// A point whose coordinates are 32.32 fixed-point numbers, each held as its raw
/// two's-complement bits (the real value is `bits / 2^32`).
#[derive(Clone, Copy, Debug, PartialEq, Eq, Structural)]
pub struct EntityPos {
    pub x: i64,
    pub y: i64,
    pub z: i64,
}

/// A point quantized to integer block coordinates.
#[derive(Clone, Copy, Debug, PartialEq, Eq, Structural)]
pub struct BlockPos {
    pub x: i32,
    pub y: i32,
    pub z: i32,
}

/// The block that holds a fixed-point coordinate: its integer part, rounded
/// towards minus infinity.
pub open spec fn block_of(bits: int) -> int {
    bits / 0x1_0000_0000
}

/// The midpoint of two fixed-point coordinates, rounded towards minus infinity.
pub open spec fn mid_of(a: int, b: int) -> int {
    (a + b) / 2
}

fn block_coord(bits: i64) -> (r: i32)
    ensures
        r as int == block_of(bits as int),
{
    let q: i64 = if bits >= 0 {
        bits / 0x1_0000_0000
    } else {
        -((-(bits as i128) + 0xFFFF_FFFF) / 0x1_0000_0000) as i64
    };
    assert(q as int == block_of(bits as int)) by {
        if bits < 0 {
            let n = -(bits as int);
            assert((n + 0xFFFF_FFFF) / 0x1_0000_0000 == -(bits as int / 0x1_0000_0000))
                by (nonlinear_arith)
                requires n > 0, n == -(bits as int);
        }
    }
    q as i32
}

impl EntityPos {
    /// The point with the given integer coordinates.
    pub fn from_primitives(x: i32, y: i32, z: i32) -> (r: EntityPos)
        ensures
            r.x == x as int * 0x1_0000_0000,
            r.y == y as int * 0x1_0000_0000,
            r.z == z as int * 0x1_0000_0000,
    {
        EntityPos {
            x: x as i64 * 0x1_0000_0000,
            y: y as i64 * 0x1_0000_0000,
            z: z as i64 * 0x1_0000_0000,
        }
    }

    /// The block that holds this point.
    pub fn block_pos(&self) -> (r: BlockPos)
        ensures
            r.x == block_of(self.x as int),
            r.y == block_of(self.y as int),
            r.z == block_of(self.z as int),
    {
        BlockPos { x: block_coord(self.x), y: block_coord(self.y), z: block_coord(self.z) }
    }
}

/// The point with the given integer coordinates.
pub fn new_fixed_vec(x: i32, y: i32, z: i32) -> (r: EntityPos)
    ensures
        r == EntityPos::spec_from_primitives(x as int, y as int, z as int),
{
    EntityPos::from_primitives(x, y, z)
}

impl EntityPos {
    pub open spec fn spec_from_primitives(x: int, y: int, z: int) -> EntityPos {
        EntityPos {
            x: (x * 0x1_0000_0000) as i64,
            y: (y * 0x1_0000_0000) as i64,
            z: (z * 0x1_0000_0000) as i64,
        }
    }
}

/// An axis-aligned bounding box.
#[derive(Clone, Copy, Debug, PartialEq, Eq, Structural)]
pub struct AABB {
    pub min: EntityPos,
    pub max: EntityPos,
}

/// `a <= b` on every axis.
pub open spec fn le_pos(a: EntityPos, b: EntityPos) -> bool {
    a.x <= b.x && a.y <= b.y && a.z <= b.z
}

/// Closed-interval overlap of two boxes on all three axes.
pub open spec fn overlaps(a: AABB, b: AABB) -> bool {
    a.min_pos().x <= b.max_pos().x && b.min_pos().x <= a.max_pos().x
    && a.min_pos().y <= b.max_pos().y && b.min_pos().y <= a.max_pos().y
    && a.min_pos().z <= b.max_pos().z && b.min_pos().z <= a.max_pos().z
}

/// Box `outer` holds box `inner`.
pub open spec fn encloses(outer: AABB, inner: AABB) -> bool {
    le_pos(outer.min_pos(), inner.min_pos()) && le_pos(inner.max_pos(), outer.max_pos())
}

pub open spec fn min_i(a: i64, b: i64) -> i64 {
    if a <= b { a } else { b }
}

pub open spec fn max_i(a: i64, b: i64) -> i64 {
    if a >= b { a } else { b }
}

/// The tightest box that holds both boxes.
pub open spec fn hull(a: AABB, b: AABB) -> AABB {
    AABB {
        min: EntityPos {
            x: min_i(a.min.x, b.min.x),
            y: min_i(a.min.y, b.min.y),
            z: min_i(a.min.z, b.min.z),
        },
        max: EntityPos {
            x: max_i(a.max.x, b.max.x),
            y: max_i(a.max.y, b.max.y),
            z: max_i(a.max.z, b.max.z),
        },
    }
}

impl AABB {
    pub open spec fn min_pos(self) -> EntityPos {
        self.min
    }

    pub open spec fn max_pos(self) -> EntityPos {
        self.max
    }

    /// `min <= max` on every axis.
    pub open spec fn wf(self) -> bool {
        le_pos(self.min, self.max)
    }

    /// The box with the given corners.
    pub fn new(min: EntityPos, max: EntityPos) -> (r: AABB)
        requires
            le_pos(min, max),
        ensures
            r.min_pos() == min,
            r.max_pos() == max,
            r.wf(),
    {
        AABB { min, max }
    }

    /// The box `center - half_size ..= center + half_size`.
    pub fn from_center(center: EntityPos, half_size: EntityPos) -> (r: AABB)
        requires
            0 <= half_size.x,
            0 <= half_size.y,
            0 <= half_size.z,
            i64::MIN <= center.x - half_size.x,
            i64::MIN <= center.y - half_size.y,
            i64::MIN <= center.z - half_size.z,
            center.x + half_size.x <= i64::MAX,
            center.y + half_size.y <= i64::MAX,
            center.z + half_size.z <= i64::MAX,
        ensures
            r.wf(),
            r.min_pos().x == center.x - half_size.x,
            r.min_pos().y == center.y - half_size.y,
            r.min_pos().z == center.z - half_size.z,
            r.max_pos().x == center.x + half_size.x,
            r.max_pos().y == center.y + half_size.y,
            r.max_pos().z == center.z + half_size.z,
    {
        let min = EntityPos {
            x: center.x - half_size.x,
            y: center.y - half_size.y,
            z: center.z - half_size.z,
        };
        let max = EntityPos {
            x: center.x + half_size.x,
            y: center.y + half_size.y,
            z: center.z + half_size.z,
        };
        AABB::new(min, max)
    }

    /// The box reduced to the origin.
    pub fn empty() -> (r: AABB)
        ensures
            r.wf(),
            r.min_pos() == (EntityPos { x: 0, y: 0, z: 0 }),
            r.max_pos() == (EntityPos { x: 0, y: 0, z: 0 }),
    {
        let o = EntityPos { x: 0, y: 0, z: 0 };
        AABB::new(o, o)
    }

    pub fn min(&self) -> (r: &EntityPos)
        ensures
            *r == self.min_pos(),
    {
        &self.min
    }

    pub fn max(&self) -> (r: &EntityPos)
        ensures
            *r == self.max_pos(),
    {
        &self.max
    }

    /// The midpoint of the box.
    pub fn center(&self) -> (r: EntityPos)
        requires
            self.wf(),
        ensures
            r.x == mid_of(self.min_pos().x as int, self.max_pos().x as int),
            r.y == mid_of(self.min_pos().y as int, self.max_pos().y as int),
            r.z == mid_of(self.min_pos().z as int, self.max_pos().z as int),
    {
        EntityPos {
            x: mid(self.min.x, self.max.x),
            y: mid(self.min.y, self.max.y),
            z: mid(self.min.z, self.max.z),
        }
    }

    /// Closed-interval overlap on all three axes; touching boxes intersect.
    pub fn intersects(&self, other: &Self) -> (r: bool)
        ensures
            r == overlaps(*self, *other),
    {
        self.min.x <= other.max.x && self.max.x >= other.min.x
            && self.min.y <= other.max.y && self.max.y >= other.min.y
            && self.min.z <= other.max.z && self.max.z >= other.min.z
    }

    /// The tightest box that holds both boxes.
    pub fn union(&self, other: &Self) -> (r: AABB)
        ensures
            r == hull(*self, *other),
            self.wf() && other.wf() ==> r.wf(),
    {
        AABB {
            min: EntityPos {
                x: if self.min.x <= other.min.x { self.min.x } else { other.min.x },
                y: if self.min.y <= other.min.y { self.min.y } else { other.min.y },
                z: if self.min.z <= other.min.z { self.min.z } else { other.min.z },
            },
            max: EntityPos {
                x: if self.max.x >= other.max.x { self.max.x } else { other.max.x },
                y: if self.max.y >= other.max.y { self.max.y } else { other.max.y },
                z: if self.max.z >= other.max.z { self.max.z } else { other.max.z },
            },
        }
    }
}

fn mid(a: i64, b: i64) -> (r: i64)
    requires
        a <= b,
    ensures
        r == mid_of(a as int, b as int),
{
    let d: u64 = (b as i128 - a as i128) as u64;
    let h: u64 = d / 2;
    let r = (a as i128 + h as i128) as i64;
    assert(a as int + (d as int) / 2 == (a as int + b as int) / 2) by (nonlinear_arith)
        requires d as int == b as int - a as int, d >= 0;
    r
}

/// The union holds both boxes, and any box that holds both holds the union.
pub proof fn lemma_union_tightest(a: AABB, b: AABB, c: AABB)
    requires
        a.wf(),
        b.wf(),
    ensures
        hull(a, b).wf(),
        encloses(hull(a, b), a),
        encloses(hull(a, b), b),
        encloses(c, a) && encloses(c, b) ==> encloses(c, hull(a, b)),
{
}

/// Intersection is symmetric.
pub proof fn lemma_intersects_symmetric(a: AABB, b: AABB)
    ensures
        overlaps(a, b) == overlaps(b, a),
{
}

} // verus!
