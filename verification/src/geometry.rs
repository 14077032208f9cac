use vstd::prelude::*;

verus! {

/// Positions and velocities are kept in integer world units (a fixed-point
/// scale of screen pixels; the surrounding loop picks the scale). Keeping
/// every coordinate within this bound makes all of the sums and doublings
/// in the collision code fit comfortably in `i64`.
pub const COORD_LIMIT: i64 = 1_000_000_000;

/// Axis-aligned box coordinates stay within twice the coordinate bound:
/// a box is a position plus or minus a half extent, each bounded by
/// `COORD_LIMIT`.
pub const AABB_LIMIT: i64 = 2_000_000_000;

#[derive(Clone, Copy, Debug, PartialEq, Eq, Structural)]
pub struct Vector2 {
    pub x: i64,
    pub y: i64,
}

impl Vector2 {
    pub open spec fn bounded(self) -> bool {
        &&& -COORD_LIMIT <= self.x <= COORD_LIMIT
        &&& -COORD_LIMIT <= self.y <= COORD_LIMIT
    }

    pub fn new(x: i64, y: i64) -> (v: Vector2)
        ensures
            v == (Vector2 { x, y }),
    {
        Vector2 { x, y }
    }

    pub fn zero() -> (v: Vector2)
        ensures
            v == (Vector2 { x: 0i64, y: 0i64 }),
    {
        Vector2 { x: 0, y: 0 }
    }

    /// Componentwise translation by `v2`.
    pub fn add(&mut self, v2: Vector2)
        requires
            i64::MIN <= old(self).x + v2.x <= i64::MAX,
            i64::MIN <= old(self).y + v2.y <= i64::MAX,
        ensures
            final(self).x == old(self).x + v2.x,
            final(self).y == old(self).y + v2.y,
    {
        self.x = self.x + v2.x;
        self.y = self.y + v2.y;
    }
}

/// Truncating halving, as Rust's `/ 2` computes it on a signed integer:
/// rounds toward zero.
pub open spec fn spec_half(a: int) -> int {
    if a >= 0 {
        a / 2
    } else {
        -((-a) / 2)
    }
}

/// Half of `a`, rounded toward zero.
pub fn half_i64(a: i64) -> (r: i64)
    requires
        -4 * AABB_LIMIT <= a <= 4 * AABB_LIMIT,
    ensures
        r == spec_half(a as int),
{
    if a >= 0 {
        a / 2
    } else {
        -((-a) / 2)
    }
}

#[derive(Clone, Copy, Debug, PartialEq, Eq, Structural)]
pub struct Aabb {
    pub x_max: i64,
    pub x_min: i64,
    pub y_max: i64,
    pub y_min: i64,
}

impl Aabb {
    pub open spec fn bounded(self) -> bool {
        &&& -AABB_LIMIT <= self.x_max <= AABB_LIMIT
        &&& -AABB_LIMIT <= self.x_min <= AABB_LIMIT
        &&& -AABB_LIMIT <= self.y_max <= AABB_LIMIT
        &&& -AABB_LIMIT <= self.y_min <= AABB_LIMIT
    }

    /// Boxes intersect unless they are strictly separated on some axis.
    pub open spec fn spec_intersects(self, other: Aabb) -> bool {
        &&& !(self.x_min > other.x_max)
        &&& !(self.x_max < other.x_min)
        &&& !(self.y_min > other.y_max)
        &&& !(self.y_max < other.y_min)
    }

    /// `other` lies entirely within `self`.
    pub open spec fn spec_contains_box(self, other: Aabb) -> bool {
        &&& self.x_min <= other.x_min
        &&& other.x_max <= self.x_max
        &&& self.y_min <= other.y_min
        &&& other.y_max <= self.y_max
    }

    /// Componentwise union of two boxes.
    pub open spec fn spec_union(self, other: Aabb) -> Aabb {
        Aabb {
            x_max: if self.x_max >= other.x_max {
                self.x_max
            } else {
                other.x_max
            },
            x_min: if self.x_min <= other.x_min {
                self.x_min
            } else {
                other.x_min
            },
            y_max: if self.y_max >= other.y_max {
                self.y_max
            } else {
                other.y_max
            },
            y_min: if self.y_min <= other.y_min {
                self.y_min
            } else {
                other.y_min
            },
        }
    }

    pub fn from_circle(x: i64, y: i64, size: i64) -> (r: Aabb)
        requires
            -COORD_LIMIT <= x <= COORD_LIMIT,
            -COORD_LIMIT <= y <= COORD_LIMIT,
            0 <= size <= COORD_LIMIT,
        ensures
            r == (Aabb { x_max: (x + size) as i64, x_min: (x - size) as i64, y_max: (y + size) as i64, y_min: (y - size) as i64 }),
            r.bounded(),
    {
        Aabb { x_max: x + size, x_min: x - size, y_max: y + size, y_min: y - size }
    }

    /// Union of a non-empty list of boxes, as the strict separating-axis
    /// collision test consumes it.
    pub fn from_aabbs(aabbs: &Vec<Aabb>) -> (r: Aabb)
        requires
            aabbs@.len() >= 1,
            forall|i: int| 0 <= i < aabbs@.len() ==> #[trigger] aabbs@[i].bounded(),
        ensures
            r == union_seq(aabbs@),
            r.bounded(),
    {
        let mut r = aabbs[0];
        let mut i: usize = 1;
        while i < aabbs.len()
            invariant
                1 <= i <= aabbs@.len(),
                forall|k: int| 0 <= k < aabbs@.len() ==> #[trigger] aabbs@[k].bounded(),
                r == union_seq(aabbs@.take(i as int)),
                r.bounded(),
            decreases aabbs@.len() - i,
        {
            let a = aabbs[i];
            proof {
                assert(aabbs@[i as int].bounded());
            }
            let next = Aabb {
                x_max: if r.x_max >= a.x_max {
                    r.x_max
                } else {
                    a.x_max
                },
                x_min: if r.x_min <= a.x_min {
                    r.x_min
                } else {
                    a.x_min
                },
                y_max: if r.y_max >= a.y_max {
                    r.y_max
                } else {
                    a.y_max
                },
                y_min: if r.y_min <= a.y_min {
                    r.y_min
                } else {
                    a.y_min
                },
            };
            proof {
                assert(aabbs@.take(i + 1).drop_last() =~= aabbs@.take(i as int));
                assert(aabbs@.take(i + 1).last() == aabbs@[i as int]);
            }
            r = next;
            i = i + 1;
        }
        proof {
            assert(aabbs@.take(aabbs@.len() as int) =~= aabbs@);
        }
        r
    }

    pub fn is_intersects(&self, other: &Aabb) -> (r: bool)
        ensures
            r == self.spec_intersects(*other),
    {
        if self.x_min > other.x_max {
            return false;
        }
        if self.x_max < other.x_min {
            return false;
        }
        if self.y_min > other.y_max {
            return false;
        }
        if self.y_max < other.y_min {
            return false;
        }
        true
    }

    /// Width plus height: the traversal-order heuristic, not an area.
    pub fn size(&self) -> (r: i64)
        requires
            self.bounded(),
        ensures
            r == (self.x_max - self.x_min) + (self.y_max - self.y_min),
    {
        let x_size = self.x_max - self.x_min;
        let y_size = self.y_max - self.y_min;
        x_size + y_size
    }
}

/// Union of a non-empty sequence of boxes, folded from the left.
pub open spec fn union_seq(s: Seq<Aabb>) -> Aabb
    decreases s.len(),
{
    if s.len() <= 1 {
        s[0]
    } else {
        union_seq(s.drop_last()).spec_union(s.last())
    }
}

/// The union box contains every box that went into it.
pub proof fn lemma_union_seq_contains_all(s: Seq<Aabb>)
    requires
        s.len() >= 1,
    ensures
        forall|i: int| 0 <= i < s.len() ==> union_seq(s).spec_contains_box(#[trigger] s[i]),
    decreases s.len(),
{
    if s.len() > 1 {
        lemma_union_seq_contains_all(s.drop_last());
        assert forall|i: int| 0 <= i < s.len() implies union_seq(s).spec_contains_box(
            #[trigger] s[i],
        ) by {
            if i < s.len() - 1 {
                assert(s.drop_last()[i] == s[i]);
                assert(union_seq(s.drop_last()).spec_contains_box(s.drop_last()[i]));
            } else {
                assert(s[i] == s.last());
            }
        }
    }
}

/// Each side of the union box is achieved by one of the boxes in the list.
pub proof fn lemma_union_seq_witnesses(s: Seq<Aabb>)
    requires
        s.len() >= 1,
    ensures
        exists|i: int| 0 <= i < s.len() && (#[trigger] s[i]).x_max == union_seq(s).x_max,
        exists|i: int| 0 <= i < s.len() && (#[trigger] s[i]).x_min == union_seq(s).x_min,
        exists|i: int| 0 <= i < s.len() && (#[trigger] s[i]).y_max == union_seq(s).y_max,
        exists|i: int| 0 <= i < s.len() && (#[trigger] s[i]).y_min == union_seq(s).y_min,
    decreases s.len(),
{
    if s.len() == 1 {
        assert(s[0].x_max == union_seq(s).x_max);
        assert(s[0].x_min == union_seq(s).x_min);
        assert(s[0].y_max == union_seq(s).y_max);
        assert(s[0].y_min == union_seq(s).y_min);
    } else {
        lemma_union_seq_witnesses(s.drop_last());
        let u = union_seq(s);
        let prev = union_seq(s.drop_last());
        if u.x_max == s.last().x_max {
            assert(s[s.len() - 1].x_max == u.x_max);
        } else {
            let i = choose|i: int|
                0 <= i < s.drop_last().len() && (#[trigger] s.drop_last()[i]).x_max == prev.x_max;
            assert(s.drop_last()[i] == s[i]);
            assert(s[i].x_max == u.x_max);
        }
        if u.x_min == s.last().x_min {
            assert(s[s.len() - 1].x_min == u.x_min);
        } else {
            let i = choose|i: int|
                0 <= i < s.drop_last().len() && (#[trigger] s.drop_last()[i]).x_min == prev.x_min;
            assert(s.drop_last()[i] == s[i]);
            assert(s[i].x_min == u.x_min);
        }
        if u.y_max == s.last().y_max {
            assert(s[s.len() - 1].y_max == u.y_max);
        } else {
            let i = choose|i: int|
                0 <= i < s.drop_last().len() && (#[trigger] s.drop_last()[i]).y_max == prev.y_max;
            assert(s.drop_last()[i] == s[i]);
            assert(s[i].y_max == u.y_max);
        }
        if u.y_min == s.last().y_min {
            assert(s[s.len() - 1].y_min == u.y_min);
        } else {
            let i = choose|i: int|
                0 <= i < s.drop_last().len() && (#[trigger] s.drop_last()[i]).y_min == prev.y_min;
            assert(s.drop_last()[i] == s[i]);
            assert(s[i].y_min == u.y_min);
        }
    }
}

/// Axis-aligned box intersection is symmetric.
pub proof fn lemma_intersects_symmetric(a: Aabb, b: Aabb)
    ensures
        a.spec_intersects(b) == b.spec_intersects(a),
{
}

} // verus!
