//! Planar geometry in fixed point.
//!
//! Lengths are whole millimetres. A heading is a vector of length `UNIT`
//! (up to rounding), so that a rotation is a product of integers and every
//! test in this module is an exact comparison of integers.
use vstd::prelude::*;

verus! {

/// Length of a heading vector: the fixed-point representation of 1.
pub const UNIT: i64 = 16384;

/// Largest absolute value of a coordinate, in millimetres.
pub const COORD_MAX: i64 = 1_000_000_000;

/// Largest radius that a disc test accepts, in millimetres.
pub const RADIUS_MAX: i64 = 1_000_000;

/// Largest absolute value of a coordinate of the offset of a point from a
/// light spot, scaled by `UNIT`.
pub const OFFSET_MAX: i128 = 32_784_385_000_000;

/// A point or a displacement in the plane.
#[derive(Clone, Copy, Debug, PartialEq, Eq, Structural)]
pub struct Vector {
    pub x: i64,
    pub y: i64,
}

/// A rigid transform of the plane: where the robot (or a waypoint) is, and
/// which way it faces.
#[derive(Clone, Copy, Debug, PartialEq, Eq, Structural)]
pub struct Pose {
    /// Position in millimetres.
    pub position: Vector,
    /// Heading: `UNIT` times (cos, sin) of the heading angle.
    pub heading: Vector,
}

/// A direction in the plane: a vector of which only the angle counts, not the
/// length. Its angle is `atan2(y, x)`.
#[derive(Clone, Copy, Debug, PartialEq, Eq, Structural)]
pub struct Direction {
    pub x: i128,
    pub y: i128,
}

/// `a * b` is bounded by the product of the bounds of its factors.
pub proof fn lemma_product_bound(a: int, b: int, m: int, n: int)
    requires
        -m <= a <= m,
        -n <= b <= n,
    ensures
        -(m * n) <= a * b <= m * n,
{
    assert(-(m * n) <= a * b <= m * n) by (nonlinear_arith)
        requires
            -m <= a <= m,
            -n <= b <= n,
    ;
}

/// A number whose square is at most `m * m` lies between `-m` and `m`.
pub proof fn lemma_root_bound(a: int, m: int)
    requires
        0 <= m,
        a * a <= m * m,
    ensures
        -m <= a <= m,
{
    assert(-m <= a <= m) by (nonlinear_arith)
        requires
            0 <= m,
            a * a <= m * m,
    ;
}

impl Vector {
    /// Scalar product.
    pub open spec fn dot(self, other: Vector) -> int {
        self.x * other.x + self.y * other.y
    }

    /// Signed area of the parallelogram spanned by `self` and `other`:
    /// positive where `other` points to the left of `self`.
    pub open spec fn cross(self, other: Vector) -> int {
        self.x * other.y - self.y * other.x
    }

    /// Squared length.
    pub open spec fn norm_squared(self) -> int {
        self.x * self.x + self.y * self.y
    }

    /// Squared distance to `other`.
    pub open spec fn distance_squared(self, other: Vector) -> int {
        (self.x - other.x) * (self.x - other.x) + (self.y - other.y) * (self.y - other.y)
    }

    /// Both coordinates are within `COORD_MAX` of zero.
    pub open spec fn in_range(self) -> bool {
        &&& -COORD_MAX <= self.x <= COORD_MAX
        &&& -COORD_MAX <= self.y <= COORD_MAX
    }

    /// The vector is a heading: its length is `UNIT`, give or take one.
    pub open spec fn is_heading(self) -> bool {
        (UNIT - 1) * (UNIT - 1) <= self.norm_squared() <= (UNIT + 1) * (UNIT + 1)
    }

    /// `self` lies strictly inside the disc of radius `radius` about `centre`.
    pub open spec fn within(self, centre: Vector, radius: int) -> bool {
        self.distance_squared(centre) < radius * radius
    }

    /// The angle between the headings `self` and `other` is below 60 degrees:
    /// its cosine exceeds one half.
    pub open spec fn within_sixty_degrees(self, other: Vector) -> bool {
        &&& self.dot(other) > 0
        &&& 4 * (self.dot(other) * self.dot(other)) > self.norm_squared() * other.norm_squared()
    }

    /// The coordinates of a heading are at most `UNIT + 1` in absolute value.
    pub proof fn lemma_heading_bounds(self)
        requires
            self.is_heading(),
        ensures
            -(UNIT + 1) <= self.x <= UNIT + 1,
            -(UNIT + 1) <= self.y <= UNIT + 1,
            !(self.x == 0 && self.y == 0),
    {
        let m = UNIT + 1;
        assert(self.x * self.x >= 0 && self.y * self.y >= 0) by (nonlinear_arith);
        lemma_root_bound(self.x as int, m);
        lemma_root_bound(self.y as int, m);
    }

    /// The vector `(x, y)`.
    pub fn new(x: i64, y: i64) -> (v: Vector)
        ensures
            v.x == x,
            v.y == y,
    {
        Vector { x, y }
    }

    /// Scalar product of two headings.
    pub fn heading_dot(&self, other: &Vector) -> (d: i128)
        requires
            self.is_heading(),
            other.is_heading(),
        ensures
            d == self.dot(*other),
            -2 * (UNIT + 1) * (UNIT + 1) <= d <= 2 * (UNIT + 1) * (UNIT + 1),
    {
        proof {
            self.lemma_heading_bounds();
            other.lemma_heading_bounds();
            lemma_product_bound(self.x as int, other.x as int, UNIT + 1, UNIT + 1);
            lemma_product_bound(self.y as int, other.y as int, UNIT + 1, UNIT + 1);
        }
        (self.x as i128) * (other.x as i128) + (self.y as i128) * (other.y as i128)
    }

    /// Signed area spanned by two headings.
    pub fn heading_cross(&self, other: &Vector) -> (c: i128)
        requires
            self.is_heading(),
            other.is_heading(),
        ensures
            c == self.cross(*other),
    {
        proof {
            self.lemma_heading_bounds();
            other.lemma_heading_bounds();
            lemma_product_bound(self.x as int, other.y as int, UNIT + 1, UNIT + 1);
            lemma_product_bound(self.y as int, other.x as int, UNIT + 1, UNIT + 1);
        }
        (self.x as i128) * (other.y as i128) - (self.y as i128) * (other.x as i128)
    }

    /// Squared length of a heading.
    pub fn heading_norm_squared(&self) -> (n: i128)
        requires
            self.is_heading(),
        ensures
            n == self.norm_squared(),
            0 < n <= (UNIT + 1) * (UNIT + 1),
    {
        proof {
            self.lemma_heading_bounds();
            lemma_product_bound(self.x as int, self.x as int, UNIT + 1, UNIT + 1);
            lemma_product_bound(self.y as int, self.y as int, UNIT + 1, UNIT + 1);
        }
        (self.x as i128) * (self.x as i128) + (self.y as i128) * (self.y as i128)
    }

    /// Squared distance between two points.
    pub fn squared_distance(&self, other: &Vector) -> (d: i128)
        requires
            self.in_range(),
            other.in_range(),
        ensures
            d == self.distance_squared(*other),
            0 <= d <= 8 * COORD_MAX * COORD_MAX,
    {
        let dx: i128 = (self.x as i128) - (other.x as i128);
        let dy: i128 = (self.y as i128) - (other.y as i128);
        proof {
            lemma_product_bound(dx as int, dx as int, 2_000_000_000, 2_000_000_000);
            lemma_product_bound(dy as int, dy as int, 2_000_000_000, 2_000_000_000);
            assert(dx * dx >= 0 && dy * dy >= 0) by (nonlinear_arith);
        }
        dx * dx + dy * dy
    }

    /// Whether the point lies strictly inside the disc of radius `radius`
    /// about `centre`.
    pub fn is_within(&self, centre: &Vector, radius: i64) -> (b: bool)
        requires
            self.in_range(),
            centre.in_range(),
            0 <= radius <= RADIUS_MAX,
        ensures
            b == self.within(*centre, radius as int),
    {
        proof {
            lemma_product_bound(radius as int, radius as int, RADIUS_MAX as int, RADIUS_MAX as int);
        }
        self.squared_distance(centre) < (radius as i128) * (radius as i128)
    }

    /// Whether two headings differ by less than 60 degrees.
    pub fn is_within_sixty_degrees(&self, other: &Vector) -> (b: bool)
        requires
            self.is_heading(),
            other.is_heading(),
        ensures
            b == self.within_sixty_degrees(*other),
    {
        let d: i128 = self.heading_dot(other);
        let m: i128 = self.heading_norm_squared();
        let n: i128 = other.heading_norm_squared();
        proof {
            lemma_product_bound(d as int, d as int, 536936450, 536936450);
            lemma_product_bound(m as int, n as int, 268468225, 268468225);
        }
        d > 0 && 4 * (d * d) > m * n
    }
}

impl Pose {
    /// The position is in range and the heading has unit length.
    pub open spec fn wf(self) -> bool {
        &&& self.position.in_range()
        &&& self.heading.is_heading()
    }

    /// The pose at `(x, y)` with heading `(cos, sin)`, or `None` where the
    /// position is out of range or the heading is not of length `UNIT`.
    pub fn new(x: i64, y: i64, cos: i64, sin: i64) -> (r: Option<Pose>)
        ensures
            r.is_some() <==> (Pose {
                position: Vector { x, y },
                heading: Vector { x: cos, y: sin },
            }).wf(),
            r.is_some() ==> r.unwrap() == (Pose {
                position: Vector { x, y },
                heading: Vector { x: cos, y: sin },
            }),
    {
        let pose = Pose { position: Vector { x, y }, heading: Vector { x: cos, y: sin } };
        if x < -COORD_MAX || x > COORD_MAX || y < -COORD_MAX || y > COORD_MAX {
            return None;
        }
        if cos < -(UNIT + 1) || cos > UNIT + 1 || sin < -(UNIT + 1) || sin > UNIT + 1 {
            proof {
                if pose.heading.is_heading() {
                    pose.heading.lemma_heading_bounds();
                }
            }
            return None;
        }
        proof {
            lemma_product_bound(cos as int, cos as int, UNIT + 1, UNIT + 1);
            lemma_product_bound(sin as int, sin as int, UNIT + 1, UNIT + 1);
        }
        let n: i64 = cos * cos + sin * sin;
        if (UNIT - 1) * (UNIT - 1) <= n && n <= (UNIT + 1) * (UNIT + 1) {
            Some(pose)
        } else {
            None
        }
    }

    /// Offset of `point` from the light spot, scaled by `UNIT`. The light
    /// spot of a pose is the point `radius` ahead of it along its heading.
    pub open spec fn spot_offset(self, radius: int, point: Vector) -> (int, int) {
        (
            UNIT * (point.x - self.position.x) - radius * self.heading.x,
            UNIT * (point.y - self.position.y) - radius * self.heading.y,
        )
    }

    /// Squared distance of `point` from the light spot, scaled by `UNIT * UNIT`.
    pub open spec fn spot_distance_squared(self, radius: int, point: Vector) -> int {
        let o = self.spot_offset(radius, point);
        o.0 * o.0 + o.1 * o.1
    }

    /// `point` lies strictly inside the light disc: the disc of radius
    /// `radius` about the light spot.
    pub open spec fn lights(self, radius: int, point: Vector) -> bool {
        self.spot_distance_squared(radius, point) < (UNIT * radius) * (UNIT * radius)
    }

    /// `next` continues a path that has reached `self`: it lies in the light
    /// disc of `self` and faces less than 60 degrees away from it.
    pub open spec fn continues_to(self, radius: int, next: Pose) -> bool {
        &&& self.lights(radius, next.position)
        &&& self.heading.within_sixty_degrees(next.heading)
    }

    /// Offset of `point` from the light spot, scaled by `UNIT`.
    pub fn offset_from_spot(&self, radius: i64, point: &Vector) -> (o: (i128, i128))
        requires
            self.wf(),
            point.in_range(),
            0 <= radius <= RADIUS_MAX,
        ensures
            (o.0 as int, o.1 as int) == self.spot_offset(radius as int, *point),
            -OFFSET_MAX <= o.0 <= OFFSET_MAX,
            -OFFSET_MAX <= o.1 <= OFFSET_MAX,
    {
        proof {
            self.heading.lemma_heading_bounds();
            lemma_product_bound(radius as int, self.heading.x as int, RADIUS_MAX as int, UNIT + 1);
            lemma_product_bound(radius as int, self.heading.y as int, RADIUS_MAX as int, UNIT + 1);
        }
        let ox: i128 = (UNIT as i128) * ((point.x as i128) - (self.position.x as i128)) - (
        radius as i128) * (self.heading.x as i128);
        let oy: i128 = (UNIT as i128) * ((point.y as i128) - (self.position.y as i128)) - (
        radius as i128) * (self.heading.y as i128);
        (ox, oy)
    }

    /// Squared distance of `point` from the light spot, scaled by `UNIT * UNIT`.
    pub fn squared_spot_distance(&self, radius: i64, point: &Vector) -> (d: i128)
        requires
            self.wf(),
            point.in_range(),
            0 <= radius <= RADIUS_MAX,
        ensures
            d == self.spot_distance_squared(radius as int, *point),
            0 <= d <= 2 * (OFFSET_MAX * OFFSET_MAX),
    {
        let (ox, oy) = self.offset_from_spot(radius, point);
        proof {
            lemma_product_bound(ox as int, ox as int, 32_784_385_000_000, 32_784_385_000_000);
            lemma_product_bound(oy as int, oy as int, 32_784_385_000_000, 32_784_385_000_000);
            assert(ox * ox >= 0 && oy * oy >= 0) by (nonlinear_arith);
        }
        ox * ox + oy * oy
    }

    /// Whether `point` lies strictly inside the light disc of radius `radius`.
    pub fn is_lighting(&self, radius: i64, point: &Vector) -> (b: bool)
        requires
            self.wf(),
            point.in_range(),
            0 <= radius <= RADIUS_MAX,
        ensures
            b == self.lights(radius as int, *point),
    {
        let d: i128 = self.squared_spot_distance(radius, point);
        let s: i128 = (UNIT as i128) * (radius as i128);
        proof {
            lemma_product_bound(s as int, s as int, 16_384_000_000, 16_384_000_000);
        }
        d < s * s
    }

    /// Whether `next` continues a path that has reached `self`.
    pub fn is_continued_by(&self, radius: i64, next: &Pose) -> (b: bool)
        requires
            self.wf(),
            next.wf(),
            0 <= radius <= RADIUS_MAX,
        ensures
            b == self.continues_to(radius as int, *next),
    {
        self.is_lighting(radius, &next.position) && self.heading.is_within_sixty_degrees(
            &next.heading,
        )
    }
}

/// `s` is the square root of `n`, rounded down.
pub open spec fn is_root(n: int, s: int) -> bool {
    0 <= s && s * s <= n < (s + 1) * (s + 1)
}

/// The square root of `n`, rounded down.
pub open spec fn root(n: int) -> int {
    choose|s: int| is_root(n, s)
}

/// Every number that is not negative has a square root rounded down.
pub proof fn lemma_root_exists(n: int)
    requires
        0 <= n,
    ensures
        is_root(n, root(n)),
{
    assert(n < (n + 1) * (n + 1)) by (nonlinear_arith)
        requires
            0 <= n,
    ;
    lemma_root_below(n, n + 1);
}

/// There is a square root of `n` below every `high` whose square is above
/// `n`.
proof fn lemma_root_below(n: int, high: int)
    requires
        0 <= n,
        0 < high,
        n < high * high,
    ensures
        exists|s: int| is_root(n, s),
    decreases high,
{
    let s = high - 1;
    if s * s <= n {
        assert(is_root(n, s));
    } else {
        assert(s > 0) by (nonlinear_arith)
            requires
                s * s > n,
                n >= 0,
                s >= 0,
        ;
        lemma_root_below(n, s);
    }
}

/// A number has one square root rounded down, and no other.
pub proof fn lemma_root_is_unique(n: int, s: int)
    requires
        is_root(n, s),
    ensures
        root(n) == s,
{
    let t = root(n);
    assert(is_root(n, t));
    if t < s {
        assert((t + 1) * (t + 1) <= s * s) by (nonlinear_arith)
            requires
                0 <= t,
                t + 1 <= s,
        ;
    }
    if s < t {
        assert((s + 1) * (s + 1) <= t * t) by (nonlinear_arith)
            requires
                0 <= s,
                s + 1 <= t,
        ;
    }
}

/// Largest number that `isqrt` takes.
pub const ROOT_MAX: u128 = 0x1000_0000_0000_0000_0000_0000_0000_0000;

/// The square root of `n`, rounded down.
pub fn isqrt(n: u128) -> (s: u128)
    requires
        n < ROOT_MAX,
    ensures
        s == root(n as int),
        is_root(n as int, s as int),
        s < 0x4000_0000_0000_0000,
{
    let mut low: u128 = 0;
    let mut high: u128 = 0x4000_0000_0000_0000;
    while high - low > 1
        invariant
            low < high <= 0x4000_0000_0000_0000,
            low * low <= n < high * high,
        decreases high - low,
    {
        let mid: u128 = low + (high - low) / 2;
        proof {
            lemma_product_bound(
                mid as int,
                mid as int,
                0x4000_0000_0000_0000,
                0x4000_0000_0000_0000,
            );
        }
        if mid * mid <= n {
            low = mid;
        } else {
            high = mid;
        }
    }
    proof {
        lemma_root_is_unique(n as int, low as int);
    }
    low
}

} // verus!
