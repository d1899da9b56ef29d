//! Recording a path: which poses of a drive are worth writing down.
use crate::geometry::{lemma_product_bound, COORD_MAX};
use vstd::prelude::*;

verus! {

/// A half turn, in microradians.
pub const HALF_TURN: i128 = 3_141_593;

/// A full turn, in microradians.
pub const FULL_TURN: i128 = 6_283_186;

/// Poses closer than this to the last one recorded are never recorded, in
/// millimetres.
pub const NEAR: i128 = 50;

/// Poses that face as the last one recorded does are recorded from this
/// distance on, in millimetres.
pub const FAR: i128 = 200;

/// What a half turn counts for, in millimetres.
pub const TURN_WEIGHT: i128 = 300;

/// A pose as it is written down: a line of a path file.
#[derive(Clone, Copy, Debug, PartialEq, Eq, Structural)]
pub struct Sample {
    /// Position in millimetres.
    pub x: i64,
    pub y: i64,
    /// Heading in microradians.
    pub theta: i64,
}

/// The state of a recording: the last pose that was recorded, if any.
pub struct Task {
    pub last: Option<Sample>,
}

/// The angle between two headings, in microradians: at most a half turn.
pub open spec fn turned(a: int, b: int) -> int {
    let d = if a <= b {
        (b - a) % (FULL_TURN as int)
    } else {
        (a - b) % (FULL_TURN as int)
    };
    if d > HALF_TURN {
        FULL_TURN - d
    } else {
        d
    }
}

impl Sample {
    /// The position is in range.
    pub open spec fn wf(self) -> bool {
        &&& -COORD_MAX <= self.x <= COORD_MAX
        &&& -COORD_MAX <= self.y <= COORD_MAX
    }

    /// Squared distance to `other`, in square millimetres.
    pub open spec fn distance_squared(self, other: Sample) -> int {
        (self.x - other.x) * (self.x - other.x) + (self.y - other.y) * (self.y - other.y)
    }

    /// What is left of `FAR` after the turn from `self` to `other` has been
    /// counted, times a half turn: `other` is new only if it lies at least
    /// that far away.
    pub open spec fn reach(self, other: Sample) -> int {
        FAR * HALF_TURN - TURN_WEIGHT * turned(self.theta as int, other.theta as int)
    }

    /// `other` is worth recording after `self`: it lies at least `NEAR`
    /// away, and its distance, with `TURN_WEIGHT` added for each half turn
    /// between the two headings, is at least `FAR`.
    pub open spec fn is_new(self, other: Sample) -> bool {
        &&& self.distance_squared(other) >= NEAR * NEAR
        &&& self.reach(other) <= 0 || HALF_TURN * HALF_TURN * self.distance_squared(other)
            >= self.reach(other) * self.reach(other)
    }

    /// The angle between the headings of `self` and `other`.
    pub fn turn_to(&self, other: &Sample) -> (t: i128)
        ensures
            t == turned(self.theta as int, other.theta as int),
            0 <= t <= HALF_TURN,
    {
        let a: i128 = self.theta as i128;
        let b: i128 = other.theta as i128;
        let d: i128 = if a <= b {
            (b - a) % FULL_TURN
        } else {
            (a - b) % FULL_TURN
        };
        if d > HALF_TURN {
            FULL_TURN - d
        } else {
            d
        }
    }

    /// Whether `other` is worth recording after `self`.
    pub fn precedes_new(&self, other: &Sample) -> (b: bool)
        requires
            self.wf(),
            other.wf(),
        ensures
            b == self.is_new(*other),
    {
        let dx: i128 = (self.x as i128) - (other.x as i128);
        let dy: i128 = (self.y as i128) - (other.y as i128);
        proof {
            lemma_product_bound(dx as int, dx as int, 2_000_000_000, 2_000_000_000);
            lemma_product_bound(dy as int, dy as int, 2_000_000_000, 2_000_000_000);
            assert(dx * dx >= 0 && dy * dy >= 0) by (nonlinear_arith);
        }
        let d: i128 = dx * dx + dy * dy;
        if d < NEAR * NEAR {
            return false;
        }
        let reach: i128 = FAR * HALF_TURN - TURN_WEIGHT * self.turn_to(other);
        if reach <= 0 {
            return true;
        }
        proof {
            lemma_product_bound(reach as int, reach as int, 628_318_600, 628_318_600);
        }
        HALF_TURN * HALF_TURN * d >= reach * reach
    }
}

/// A pose less than `NEAR` from the last one recorded is not new, however
/// it faces.
pub proof fn lemma_close_is_old(last: Sample, next: Sample)
    requires
        last.distance_squared(next) < NEAR * NEAR,
    ensures
        !last.is_new(next),
{
}

/// A pose at least `FAR` from the last one recorded is new, however it
/// faces.
pub proof fn lemma_far_is_new(last: Sample, next: Sample)
    requires
        last.distance_squared(next) >= FAR * FAR,
    ensures
        last.is_new(next),
{
    let d = last.distance_squared(next);
    let r = last.reach(next);
    let t = turned(last.theta as int, next.theta as int);
    assert(0 <= t);
    assert(r <= FAR * HALF_TURN);
    if r > 0 {
        assert(r * r <= (FAR * HALF_TURN) * (FAR * HALF_TURN)) by (nonlinear_arith)
            requires
                0 < r <= FAR * HALF_TURN,
        ;
        assert(HALF_TURN * HALF_TURN * d >= (FAR * HALF_TURN) * (FAR * HALF_TURN)) by (nonlinear_arith)
            requires
                d >= FAR * FAR,
        ;
    }
}

impl Task {
    /// A recording of nothing yet.
    pub fn new() -> (task: Task)
        ensures
            task.last.is_none(),
    {
        Task { last: None }
    }

    /// The last pose recorded is in range.
    pub open spec fn wf(&self) -> bool {
        self.last matches Some(s) ==> s.wf()
    }

    /// Takes the next pose of the drive and tells whether it is to be
    /// written down. The first pose always is. A later one is where it is
    /// new after the last one written down.
    pub fn append(&mut self, sample: &Sample) -> (saved: bool)
        requires
            old(self).wf(),
            sample.wf(),
        ensures
            final(self).wf(),
            saved == match old(self).last {
                Some(last) => last.is_new(*sample),
                None => true,
            },
            final(self).last == if saved {
                Some(*sample)
            } else {
                old(self).last
            },
    {
        let saved: bool = match &self.last {
            Some(last) => last.precedes_new(sample),
            None => true,
        };
        if saved {
            self.last = Some(*sample);
        }
        saved
    }
}

} // verus!
