//! Steering decisions: driving onto the path, and pursuing it in the light
//! disc.
//!
//! All of it is done in whole numbers. A turn rate is an angle; `Command`
//! gives it as a direction, of which it is the angle.
use crate::geometry::{
    is_root, isqrt, lemma_product_bound, lemma_root_exists, root, Direction, Pose, Vector, OFFSET_MAX,
    RADIUS_MAX, UNIT,
};
use vstd::prelude::*;

verus! {

/// The square of the acceptance radius, as a fraction of the square of the
/// light radius: `ACCEPT_NUM / ACCEPT_DEN`. The acceptance radius is the
/// chord that the angular margin, a sixteenth of a half turn, cuts from the
/// rim of the light disc.
pub const ACCEPT_NUM: i128 = 384_294;

pub const ACCEPT_DEN: i128 = 10_000_000;

/// The square of the cosine of the angular margin: `ALIGN_NUM / ALIGN_DEN`.
pub const ALIGN_NUM: i128 = 96_193_977;

pub const ALIGN_DEN: i128 = 100_000_000;

/// How far behind the light spot a waypoint may lie for the robot to back up
/// to it: one metre, in millimetres times `UNIT * UNIT`.
pub const REVERSE_RANGE: i128 = 268_435_456_000;

/// Largest absolute value of a coordinate in the frame of a light spot, in
/// millimetres times `UNIT * UNIT`.
pub const AHEAD_MAX: i128 = 1_074_344_296_450_000_000;

/// Full speed. The robot approaches a waypoint at one thousandth of it for
/// each millimetre that the waypoint is away from the light spot.
pub const FULL_SPEED: i64 = 1000;

/// What the robot is to do next.
#[derive(Clone, Copy, Debug, PartialEq, Eq, Structural)]
pub enum Command {
    /// Drive at `speed`, in thousandths of full speed and negative to back
    /// up, and turn at the rate that is the angle of `turn`: that angle is
    /// within a quarter turn either way.
    Drive { speed: i64, turn: Direction },
    /// Pursue the path at full speed. `entry` and `exit` are the directions,
    /// seen from the light spot, in which the path comes into the light disc
    /// and goes out of it. With `d` the angle of `exit` less the angle of
    /// `entry`, the turn rate is half the angle that `d` lacks to a half
    /// turn of its own sign: it is within a quarter turn either way, and
    /// nought where the path goes straight through the light spot.
    Pursue { entry: Direction, exit: Direction },
}

/// The chord of a segment that the light disc shows: the indices of its
/// first and last waypoint.
#[derive(Clone, Copy, Debug, PartialEq, Eq, Structural)]
pub struct Chord {
    pub near: usize,
    pub far: usize,
}

/// The first index from `j` on of a waypoint of `segment` in the light disc
/// of `pose`.
pub open spec fn first_lit(segment: Seq<Pose>, pose: Pose, radius: int, j: int) -> Option<int>
    decreases segment.len() - j,
{
    if j < 0 || j >= segment.len() {
        None
    } else if pose.lights(radius, segment[j].position) {
        Some(j)
    } else {
        first_lit(segment, pose, radius, j + 1)
    }
}

/// The last index of the run of waypoints in the light disc that begins at
/// `j`.
pub open spec fn lit_run_end(segment: Seq<Pose>, pose: Pose, radius: int, j: int) -> int
    decreases segment.len() - j,
{
    if 0 <= j && j + 1 < segment.len() && pose.lights(radius, segment[j + 1].position) {
        lit_run_end(segment, pose, radius, j + 1)
    } else {
        j
    }
}

/// The chord that the light disc of `pose` shows of `segment`, looked for
/// from `j` on.
pub open spec fn chord(segment: Seq<Pose>, pose: Pose, radius: int, j: int) -> Option<(int, int)> {
    match first_lit(segment, pose, radius, j) {
        Some(near) => Some((near, lit_run_end(segment, pose, radius, near))),
        None => None,
    }
}

/// What `first_lit` returns: the index of a waypoint in the light disc, with
/// none such from `j` up to it; or `None`, with none such from `j` on.
pub proof fn lemma_first_lit(segment: Seq<Pose>, pose: Pose, radius: int, j: int)
    requires
        0 <= j,
    ensures
        match first_lit(segment, pose, radius, j) {
            Some(near) => {
                &&& j <= near < segment.len()
                &&& pose.lights(radius, segment[near].position)
                &&& forall|k: int| j <= k < near ==> !pose.lights(radius, (#[trigger] segment[k]).position)
            },
            None => forall|k: int|
                j <= k < segment.len() ==> !pose.lights(radius, (#[trigger] segment[k]).position),
        },
    decreases segment.len() - j,
{
    if j < segment.len() && !pose.lights(radius, segment[j].position) {
        lemma_first_lit(segment, pose, radius, j + 1);
    }
}

/// What `lit_run_end` returns: every waypoint from `j` to it is in the light
/// disc, and the next one, if there is one, is not.
pub proof fn lemma_lit_run_end(segment: Seq<Pose>, pose: Pose, radius: int, j: int)
    requires
        0 <= j < segment.len(),
        pose.lights(radius, segment[j].position),
    ensures
        j <= lit_run_end(segment, pose, radius, j) < segment.len(),
        forall|k: int|
            j <= k <= lit_run_end(segment, pose, radius, j) ==> pose.lights(
                radius,
                (#[trigger] segment[k]).position,
            ),
        lit_run_end(segment, pose, radius, j) + 1 < segment.len() ==> !pose.lights(
            radius,
            segment[lit_run_end(segment, pose, radius, j) + 1].position,
        ),
    decreases segment.len() - j,
{
    if j + 1 < segment.len() && pose.lights(radius, segment[j + 1].position) {
        lemma_lit_run_end(segment, pose, radius, j + 1);
    }
}

/// Finds the chord of `slice` that the light disc of `pose` shows: its first
/// waypoint is the first one of `slice` in the disc, its last waypoint the
/// last one of the run in the disc that begins there. `None` where no
/// waypoint of `slice` is in the disc.
pub fn track(slice: &[Pose], pose: &Pose, light_radius: i64) -> (found: Option<Chord>)
    requires
        forall|k: int| 0 <= k < slice@.len() ==> (#[trigger] slice@[k]).wf(),
        pose.wf(),
        0 < light_radius <= RADIUS_MAX,
    ensures
        match found {
            Some(c) => {
                &&& chord(slice@, *pose, light_radius as int, 0) == Some((c.near as int, c.far as int))
                &&& c.near <= c.far < slice@.len()
                &&& forall|k: int|
                    0 <= k < c.near ==> !pose.lights(light_radius as int, (#[trigger] slice@[k]).position)
                &&& forall|k: int|
                    c.near <= k <= c.far ==> pose.lights(
                        light_radius as int,
                        (#[trigger] slice@[k]).position,
                    )
                &&& c.far + 1 < slice@.len() ==> !pose.lights(
                    light_radius as int,
                    slice@[c.far + 1].position,
                )
            },
            None => {
                &&& chord(slice@, *pose, light_radius as int, 0).is_none()
                &&& forall|k: int|
                    0 <= k < slice@.len() ==> !pose.lights(
                        light_radius as int,
                        (#[trigger] slice@[k]).position,
                    )
            },
        },
{
    let ghost r = light_radius as int;
    proof {
        lemma_first_lit(slice@, *pose, r, 0);
    }
    let mut near: usize = 0;
    while near < slice.len() && !pose.is_lighting(light_radius, &slice[near].position)
        invariant
            near <= slice@.len(),
            forall|k: int| 0 <= k < slice@.len() ==> (#[trigger] slice@[k]).wf(),
            pose.wf(),
            0 < light_radius <= RADIUS_MAX,
            r == light_radius,
            first_lit(slice@, *pose, r, 0) == first_lit(slice@, *pose, r, near as int),
        decreases slice@.len() - near,
    {
        near += 1;
    }
    if near >= slice.len() {
        return None;
    }
    proof {
        lemma_lit_run_end(slice@, *pose, r, near as int);
    }
    let len: usize = slice.len();
    let mut far: usize = near;
    while far + 1 < len && pose.is_lighting(light_radius, &slice[far + 1].position)
        invariant
            near <= far < len,
            len == slice@.len(),
            forall|k: int| 0 <= k < slice@.len() ==> (#[trigger] slice@[k]).wf(),
            pose.wf(),
            0 < light_radius <= RADIUS_MAX,
            r == light_radius,
            pose.lights(r, slice@[far as int].position),
            lit_run_end(slice@, *pose, r, near as int) == lit_run_end(slice@, *pose, r, far as int),
        decreases slice@.len() - far,
    {
        far += 1;
    }
    Some(Chord { near, far })
}

impl Pose {
    /// How far ahead of the light spot `point` lies, along the heading:
    /// in millimetres times `UNIT * UNIT`.
    pub open spec fn spot_ahead(self, radius: int, point: Vector) -> int {
        let o = self.spot_offset(radius, point);
        self.heading.x * o.0 + self.heading.y * o.1
    }

    /// How far to the left of the light spot `point` lies, across the
    /// heading: in millimetres times `UNIT * UNIT`.
    pub open spec fn spot_left(self, radius: int, point: Vector) -> int {
        let o = self.spot_offset(radius, point);
        self.heading.x * o.1 - self.heading.y * o.0
    }

    /// Where `point` lies in the frame of the light spot: how far ahead of
    /// it, and how far to its left, in millimetres times `UNIT * UNIT`.
    pub fn spot_coordinates(&self, radius: i64, point: &Vector) -> (at: (i128, i128))
        requires
            self.wf(),
            point.in_range(),
            0 <= radius <= RADIUS_MAX,
        ensures
            at.0 == self.spot_ahead(radius as int, *point),
            at.1 == self.spot_left(radius as int, *point),
            -AHEAD_MAX <= at.0 <= AHEAD_MAX,
            -AHEAD_MAX <= at.1 <= AHEAD_MAX,
    {
        let (ox, oy) = self.offset_from_spot(radius, point);
        let hx: i128 = self.heading.x as i128;
        let hy: i128 = self.heading.y as i128;
        proof {
            self.heading.lemma_heading_bounds();
            lemma_product_bound(hx as int, ox as int, UNIT + 1, OFFSET_MAX as int);
            lemma_product_bound(hy as int, oy as int, UNIT + 1, OFFSET_MAX as int);
            lemma_product_bound(hx as int, oy as int, UNIT + 1, OFFSET_MAX as int);
            lemma_product_bound(hy as int, ox as int, UNIT + 1, OFFSET_MAX as int);
        }
        (hx * ox + hy * oy, hx * oy - hy * ox)
    }

    /// `point` lies within the acceptance radius of the light spot.
    pub open spec fn accepts(self, radius: int, point: Vector) -> bool {
        self.spot_distance_squared(radius, point) * ACCEPT_DEN < (UNIT * radius) * (UNIT * radius)
            * ACCEPT_NUM
    }

    /// The direction, seen from the light spot, of the point where the line
    /// through `waypoint` along its heading meets the rim of the light disc:
    /// ahead of the waypoint where `leaving` holds, behind it otherwise. The
    /// waypoint is in the light disc.
    ///
    /// With `o` the offset of the waypoint from the light spot and `h` its
    /// heading, the point is `o + t * h`, where `t` solves
    /// `|o + t * h| = UNIT * radius`. The direction is that point times the
    /// square of the length of `h`, with the square root rounded down.
    pub open spec fn rim(self, radius: int, waypoint: Pose, leaving: bool) -> (int, int) {
        let o = self.spot_offset(radius, waypoint.position);
        let h = waypoint.heading;
        let a = h.norm_squared();
        let b = h.x * o.0 + h.y * o.1;
        let c = o.0 * o.0 + o.1 * o.1 - (UNIT * radius) * (UNIT * radius);
        let s = root(b * b - a * c);
        let t = if leaving {
            s - b
        } else {
            -s - b
        };
        (a * o.0 + t * h.x, a * o.1 + t * h.y)
    }

    /// The direction in which the path through `waypoint` meets the rim of
    /// the light disc.
    pub fn rim_direction(&self, light_radius: i64, waypoint: &Pose, leaving: bool) -> (d: Direction)
        requires
            self.wf(),
            waypoint.wf(),
            0 < light_radius <= RADIUS_MAX,
            self.lights(light_radius as int, waypoint.position),
        ensures
            (d.x as int, d.y as int) == self.rim(light_radius as int, *waypoint, leaving),
    {
        let (ox, oy) = self.offset_from_spot(light_radius, &waypoint.position);
        let hx: i128 = waypoint.heading.x as i128;
        let hy: i128 = waypoint.heading.y as i128;
        let a: i128 = waypoint.heading.heading_norm_squared();
        let size: i128 = (UNIT as i128) * (light_radius as i128);
        proof {
            waypoint.heading.lemma_heading_bounds();
            lemma_product_bound(hx as int, ox as int, UNIT + 1, OFFSET_MAX as int);
            lemma_product_bound(hy as int, oy as int, UNIT + 1, OFFSET_MAX as int);
            lemma_product_bound(ox as int, ox as int, OFFSET_MAX as int, OFFSET_MAX as int);
            lemma_product_bound(oy as int, oy as int, OFFSET_MAX as int, OFFSET_MAX as int);
            lemma_product_bound(size as int, size as int, 16_384_000_000, 16_384_000_000);
            assert(size * size >= 0 && ox * ox >= 0 && oy * oy >= 0) by (nonlinear_arith);
        }
        let b: i128 = hx * ox + hy * oy;
        let c: i128 = ox * ox + oy * oy - size * size;
        proof {
            // Within the disc `c` is negative, so the root is taken of a
            // positive number.
            assert(c < 0);
            lemma_product_bound(b as int, b as int, 1_074_344_296_450_000_000, 1_074_344_296_450_000_000);
            lemma_product_bound(a as int, c as int, 268_468_225, 268_435_456_000_000_000_000);
            assert(b * b >= 0) by (nonlinear_arith);
            assert(a * c <= 0) by (nonlinear_arith)
                requires
                    a > 0,
                    c < 0,
            ;
        }
        let s: i128 = isqrt((b * b - a * c) as u128) as i128;
        let t: i128 = if leaving {
            s - b
        } else {
            -s - b
        };
        proof {
            lemma_product_bound(a as int, ox as int, 268_468_225, OFFSET_MAX as int);
            lemma_product_bound(a as int, oy as int, 268_468_225, OFFSET_MAX as int);
            lemma_product_bound(t as int, hx as int, 6_000_000_000_000_000_000, UNIT + 1);
            lemma_product_bound(t as int, hy as int, 6_000_000_000_000_000_000, UNIT + 1);
        }
        Direction { x: a * ox + t * hx, y: a * oy + t * hy }
    }
}

impl Vector {
    /// The angle between the headings `self` and `other` is below the
    /// angular margin.
    pub open spec fn aligned_with(self, other: Vector) -> bool {
        &&& self.dot(other) > 0
        &&& self.dot(other) * self.dot(other) * ALIGN_DEN > self.norm_squared()
            * other.norm_squared() * ALIGN_NUM
    }

    /// Whether two headings differ by less than the angular margin.
    pub fn is_aligned_with(&self, other: &Vector) -> (b: bool)
        requires
            self.is_heading(),
            other.is_heading(),
        ensures
            b == self.aligned_with(*other),
    {
        let d: i128 = self.heading_dot(other);
        let m: i128 = self.heading_norm_squared();
        let n: i128 = other.heading_norm_squared();
        proof {
            lemma_product_bound(d as int, d as int, 536936450, 536936450);
            lemma_product_bound(m as int, n as int, 268468225, 268468225);
        }
        d > 0 && d * d * ALIGN_DEN > m * n * ALIGN_NUM
    }
}

/// A waypoint behind the light spot, at `(ahead, left)` in its frame, that
/// the robot backs up to: less than a metre behind, and within 45 degrees of
/// straight behind.
pub open spec fn backs_up(ahead: int, left: int) -> bool {
    &&& -REVERSE_RANGE < ahead < 0
    &&& ahead < left < -ahead
}

/// The direction whose angle is the turn rate towards a waypoint at
/// `(ahead, left)` in the frame of the light spot: the bearing
/// `-atan2(left, ahead)`, taken from the rear where the robot backs up, and
/// held within a quarter turn.
pub open spec fn approach_turn(ahead: int, left: int) -> (int, int) {
    if backs_up(ahead, left) {
        (-ahead, -left)
    } else if ahead >= 0 {
        (ahead, -left)
    } else if left >= 0 {
        (0, -1)
    } else {
        (0, 1)
    }
}

/// The speed towards a waypoint at `(ahead, left)` in the frame of the light
/// spot, `distance_squared` away from it in units of `UNIT * UNIT`: a
/// thousandth of full speed for each millimetre, up to full speed, and
/// negative where the robot backs up.
pub open spec fn approach_speed(distance_squared: int, ahead: int, left: int) -> int {
    let pace = root(distance_squared) / (UNIT as int);
    let speed = if pace < FULL_SPEED {
        pace
    } else {
        FULL_SPEED as int
    };
    if backs_up(ahead, left) {
        -speed
    } else {
        speed
    }
}

/// What the robot does to come onto the path at `target`.
///
/// It is done (`None`) where the waypoint is within the acceptance radius of
/// the light spot and faces as the robot does, up to the angular margin.
/// Within the acceptance radius but facing elsewhere, the robot turns on the
/// spot at full speed: a quarter turn in the negative sense where the
/// waypoint faces to the left of the robot, in the positive sense otherwise.
/// Anywhere else it drives towards the waypoint.
pub open spec fn approach(pose: Pose, target: Pose, radius: int) -> Option<Command> {
    if pose.accepts(radius, target.position) {
        if pose.heading.aligned_with(target.heading) {
            None
        } else if pose.heading.cross(target.heading) >= 0 {
            Some(Command::Drive { speed: FULL_SPEED, turn: Direction { x: 0, y: (-1int) as i128 } })
        } else {
            Some(Command::Drive { speed: FULL_SPEED, turn: Direction { x: 0, y: 1 } })
        }
    } else {
        let ahead = pose.spot_ahead(radius, target.position);
        let left = pose.spot_left(radius, target.position);
        let turn = approach_turn(ahead, left);
        Some(
            Command::Drive {
                speed: approach_speed(
                    pose.spot_distance_squared(radius, target.position),
                    ahead,
                    left,
                ) as i64,
                turn: Direction { x: turn.0 as i128, y: turn.1 as i128 },
            },
        )
    }
}

/// The command to pursue the chord of the path from `near` to `far`, both in
/// the light disc: the path comes into the disc behind `near` and goes out
/// of it ahead of `far`.
pub open spec fn pursuit(pose: Pose, radius: int, near: Pose, far: Pose) -> Command {
    let entry = pose.rim(radius, near, false);
    let exit = pose.rim(radius, far, true);
    Command::Pursue {
        entry: Direction { x: entry.0 as i128, y: entry.1 as i128 },
        exit: Direction { x: exit.0 as i128, y: exit.1 as i128 },
    }
}

/// The command to pursue the chord of the path from `near` to `far`.
pub fn pursue(pose: &Pose, light_radius: i64, near: &Pose, far: &Pose) -> (command: Command)
    requires
        pose.wf(),
        near.wf(),
        far.wf(),
        0 < light_radius <= RADIUS_MAX,
        pose.lights(light_radius as int, near.position),
        pose.lights(light_radius as int, far.position),
    ensures
        command == pursuit(*pose, light_radius as int, *near, *far),
{
    Command::Pursue {
        entry: pose.rim_direction(light_radius, near, false),
        exit: pose.rim_direction(light_radius, far, true),
    }
}

/// A waypoint within the acceptance radius of the light spot is in the
/// light disc.
pub proof fn lemma_accepted_is_lit(pose: Pose, radius: int, point: Vector)
    requires
        pose.accepts(radius, point),
    ensures
        pose.lights(radius, point),
{
    let d = pose.spot_distance_squared(radius, point);
    let s = (UNIT * radius) * (UNIT * radius);
    assert(s >= 0) by (nonlinear_arith)
        requires
            s == (UNIT * radius) * (UNIT * radius),
    ;
    assert(d < s) by (nonlinear_arith)
        requires
            d * ACCEPT_DEN < s * ACCEPT_NUM,
            s >= 0,
            ACCEPT_DEN == 10_000_000,
            ACCEPT_NUM == 384_294,
    ;
}

/// Decides what the robot does to come onto the path at `target`: `None`
/// where it is there already.
pub fn goto(pose: &Pose, target: &Pose, light_radius: i64) -> (next: Option<Command>)
    requires
        pose.wf(),
        target.wf(),
        0 < light_radius <= RADIUS_MAX,
    ensures
        next == approach(*pose, *target, light_radius as int),
        next.is_none() ==> pose.lights(light_radius as int, target.position),
        next matches Some(Command::Drive { speed, turn }) ==> -FULL_SPEED <= speed <= FULL_SPEED
            && turn.x >= 0 && (turn.x != 0 || turn.y != 0),
{
    let d: i128 = pose.squared_spot_distance(light_radius, &target.position);
    let size: i128 = (UNIT as i128) * (light_radius as i128);
    proof {
        lemma_product_bound(size as int, size as int, 16_384_000_000, 16_384_000_000);
    }
    if d * ACCEPT_DEN < size * size * ACCEPT_NUM {
        proof {
            lemma_accepted_is_lit(*pose, light_radius as int, target.position);
        }
        if pose.heading.is_aligned_with(&target.heading) {
            None
        } else if pose.heading.heading_cross(&target.heading) >= 0 {
            Some(Command::Drive { speed: FULL_SPEED, turn: Direction { x: 0, y: -1 } })
        } else {
            Some(Command::Drive { speed: FULL_SPEED, turn: Direction { x: 0, y: 1 } })
        }
    } else {
        let (ahead, left) = pose.spot_coordinates(light_radius, &target.position);
        let reverse: bool = -REVERSE_RANGE < ahead && ahead < 0 && ahead < left && left < -ahead;
        let pace: i128 = (isqrt(d as u128) / (UNIT as u128)) as i128;
        let speed: i64 = if pace < FULL_SPEED as i128 {
            pace as i64
        } else {
            FULL_SPEED
        };
        proof {
            // The waypoint is not at the light spot, so it has a direction.
            if ahead == 0 && left == 0 {
                let o = pose.spot_offset(light_radius as int, target.position);
                pose.heading.lemma_heading_bounds();
                lemma_no_offset(pose.heading.x as int, pose.heading.y as int, o.0, o.1);
                assert(o.0 * o.0 + o.1 * o.1 == 0) by (nonlinear_arith)
                    requires
                        o.0 == 0,
                        o.1 == 0,
                ;
                assert(d == 0);
                assert(size * size > 0) by (nonlinear_arith)
                    requires
                        size > 0,
                ;
            }
        }
        if reverse {
            Some(Command::Drive { speed: -speed, turn: Direction { x: -ahead, y: -left } })
        } else if ahead >= 0 {
            Some(Command::Drive { speed, turn: Direction { x: ahead, y: -left } })
        } else if left >= 0 {
            Some(Command::Drive { speed, turn: Direction { x: 0, y: -1 } })
        } else {
            Some(Command::Drive { speed, turn: Direction { x: 0, y: 1 } })
        }
    }
}

/// A point that lies neither ahead of a pose nor behind it, and neither to
/// its left nor to its right, lies where the pose is.
proof fn lemma_no_offset(hx: int, hy: int, ox: int, oy: int)
    requires
        hx * ox + hy * oy == 0,
        hx * oy - hy * ox == 0,
        hx != 0 || hy != 0,
    ensures
        ox == 0 && oy == 0,
{
    // (hx^2 + hy^2) * ox = hx * (hx ox + hy oy) - hy * (hx oy - hy ox) = 0
    assert((hx * hx + hy * hy) * ox == 0) by (nonlinear_arith)
        requires
            hx * ox + hy * oy == 0,
            hx * oy - hy * ox == 0,
    ;
    assert((hx * hx + hy * hy) * oy == 0) by (nonlinear_arith)
        requires
            hx * ox + hy * oy == 0,
            hx * oy - hy * ox == 0,
    ;
    assert(hx * hx + hy * hy > 0) by (nonlinear_arith)
        requires
            hx != 0 || hy != 0,
    ;
    assert(ox == 0 && oy == 0) by (nonlinear_arith)
        requires
            (hx * hx + hy * hy) * ox == 0,
            (hx * hx + hy * hy) * oy == 0,
            hx * hx + hy * hy > 0,
    ;
}

/// Where the point `o + t * h / |h|^2` lies, for a point `o` on the line
/// through the origin along `h`: on that line, and ahead of the origin by
/// `t` more than `o`.
proof fn lemma_along_the_heading(hx: int, hy: int, ox: int, oy: int, t: int)
    requires
        hx * oy - hy * ox == 0,
    ensures
        ({
            let a = hx * hx + hy * hy;
            let b = hx * ox + hy * oy;
            &&& hx * (a * oy + t * hy) - hy * (a * ox + t * hx) == 0
            &&& hx * (a * ox + t * hx) + hy * (a * oy + t * hy) == a * (b + t)
        }),
{
    let a = hx * hx + hy * hy;
    let b = hx * ox + hy * oy;
    let cross = hx * oy - hy * ox;
    assert(hx * (a * oy + t * hy) - hy * (a * ox + t * hx) == a * cross) by (nonlinear_arith)
        requires
            cross == hx * oy - hy * ox,
    ;
    assert(hx * (a * ox + t * hx) + hy * (a * oy + t * hy) == a * (b + t)) by (nonlinear_arith)
        requires
            a == hx * hx + hy * hy,
            b == hx * ox + hy * oy,
    ;
}

/// On a straight line the path goes straight through the light spot: where
/// a waypoint in the light disc lies on the line through the robot along its
/// heading, and faces as the robot does, the path comes into the disc
/// straight behind the light spot and goes out of it straight ahead.
pub proof fn lemma_straight_through(pose: Pose, radius: int, waypoint: Pose)
    requires
        pose.wf(),
        waypoint.wf(),
        0 < radius,
        pose.lights(radius, waypoint.position),
        waypoint.heading == pose.heading,
        pose.heading.x * (waypoint.position.y - pose.position.y) == pose.heading.y * (
        waypoint.position.x - pose.position.x),
    ensures
        ({
            let h = pose.heading;
            let entry = pose.rim(radius, waypoint, false);
            let exit = pose.rim(radius, waypoint, true);
            &&& h.x * entry.1 - h.y * entry.0 == 0
            &&& h.x * entry.0 + h.y * entry.1 < 0
            &&& h.x * exit.1 - h.y * exit.0 == 0
            &&& h.x * exit.0 + h.y * exit.1 > 0
        }),
{
    let h = pose.heading;
    let o = pose.spot_offset(radius, waypoint.position);
    let a = h.norm_squared();
    let b = h.x * o.0 + h.y * o.1;
    let c = o.0 * o.0 + o.1 * o.1 - (UNIT * radius) * (UNIT * radius);
    let n = b * b - a * c;
    let s = root(n);
    h.lemma_heading_bounds();
    assert(a > 0) by (nonlinear_arith)
        requires
            a == h.x * h.x + h.y * h.y,
            h.x != 0 || h.y != 0,
    ;
    assert(c < 0);
    assert(n >= 1) by (nonlinear_arith)
        requires
            n == b * b - a * c,
            a > 0,
            c < 0,
    ;
    lemma_root_exists(n);
    assert(s >= 1) by (nonlinear_arith)
        requires
            is_root(n, s),
            n >= 1,
    ;
    // The waypoint lies on the line through the light spot along the heading.
    let dx = waypoint.position.x - pose.position.x;
    let dy = waypoint.position.y - pose.position.y;
    assert(h.x * o.1 - h.y * o.0 == 0) by (nonlinear_arith)
        requires
            o.0 == UNIT * dx - radius * h.x,
            o.1 == UNIT * dy - radius * h.y,
            h.x * dy == h.y * dx,
    ;
    lemma_along_the_heading(h.x as int, h.y as int, o.0, o.1, s - b);
    lemma_along_the_heading(h.x as int, h.y as int, o.0, o.1, -s - b);
    assert(a * (b + (s - b)) > 0) by (nonlinear_arith)
        requires
            a > 0,
            s >= 1,
    ;
    assert(a * (b + (-s - b)) < 0) by (nonlinear_arith)
        requires
            a > 0,
            s >= 1,
    ;
}

} // verus!
