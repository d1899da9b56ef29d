//! A path with the cursor of the task that follows it.
use crate::geometry::{Pose, RADIUS_MAX};
use crate::path::{all_wf, on_path, relocated, sound, RelocateConfig};
use crate::track::{approach, pursuit, Command};
use crate::tracker::{advanced, rest_at, sighted};
use vstd::prelude::*;

pub use crate::tracker::{InitializeResult, TrackError};

verus! {

/// A path and a cursor on it: the segment the robot is on, and the waypoint
/// of it that the robot has come to.
pub struct Path {
    pub inner: crate::path::Path,
    pub index: (usize, usize),
}

impl Path {
    /// The cursor, as a pair of integers.
    pub open spec fn cursor(&self) -> (int, int) {
        (self.index.0 as int, self.index.1 as int)
    }

    /// The waypoints of the current segment from the cursor on.
    pub open spec fn rest(&self) -> Seq<Pose> {
        rest_at(self.inner@, self.cursor())
    }

    /// The path is sound, and the cursor is on a segment of it, at a
    /// waypoint or at its end.
    pub open spec fn wf(&self) -> bool {
        &&& sound(self.inner@)
        &&& self.index.0 < self.inner@.len()
        &&& self.index.1 <= self.inner@[self.index.0 as int].len()
    }

    /// `path` with the cursor at its beginning.
    pub fn new(path: crate::path::Path) -> (r: Self)
        ensures
            r.inner == path,
            r.index == (0usize, 0usize),
    {
        Self { inner: path, index: (0, 0) }
    }

    /// Searches the path for the robot, from the cursor on and, on a cyclic
    /// path, on from the beginning. Where a waypoint within `search_radius`
    /// of the robot is found, the cursor moves to the first such and `true`
    /// is returned. Otherwise the cursor stays.
    ///
    /// This walks the whole path in the worst case.
    pub fn relocate(&mut self, pose: &Pose, search_radius: i64, cyclic: bool) -> (found: bool)
        requires
            forall|k: int| 0 <= k < old(self).inner@.len() ==> all_wf(#[trigger] old(self).inner@[k]),
            pose.position.in_range(),
            0 <= search_radius <= RADIUS_MAX,
        ensures
            final(self).inner == old(self).inner,
            match relocated(
                old(self).inner@,
                pose.position,
                search_radius as int,
                old(self).cursor(),
                cyclic,
            ) {
                Some(c) => found && final(self).cursor() == c && on_path(final(self).inner@, c),
                None => !found && final(self).index == old(self).index,
            },
    {
        match self.inner.relocate(
            RelocateConfig { pose: *pose, index: self.index, search_radius, cyclic },
        ) {
            Some(i) => {
                self.index = i;
                true
            },
            None => false,
        }
    }

    /// Looks for the path in the light disc, from the cursor on in the
    /// current segment. Where the disc shows a chord of it, the cursor moves
    /// to the first waypoint of the chord, and the command to pursue the
    /// chord is returned. Otherwise the cursor stays.
    pub fn track_within(&mut self, pose: &Pose, light_radius: i64) -> (result: Result<
        Command,
        TrackError,
    >)
        requires
            old(self).wf(),
            pose.wf(),
            0 < light_radius <= RADIUS_MAX,
        ensures
            final(self).inner == old(self).inner,
            final(self).index.0 == old(self).index.0,
            match sighted(old(self).rest(), *pose, light_radius as int) {
                Ok(c) => {
                    &&& final(self).index.1 == old(self).index.1 + c.0
                    &&& on_path(final(self).inner@, final(self).cursor())
                    &&& result == Ok::<Command, TrackError>(
                        pursuit(
                            *pose,
                            light_radius as int,
                            old(self).rest()[c.0],
                            old(self).rest()[c.1],
                        ),
                    )
                },
                Err(e) => final(self).index == old(self).index && result == Err::<Command, TrackError>(e),
            },
    {
        match self.inner.track_within(self.index, pose, light_radius) {
            Ok((index, command)) => {
                self.index.1 = index;
                Ok(command)
            },
            Err(e) => Err(e),
        }
    }

    /// Moves the cursor to the beginning of the next segment: of the first
    /// one where the path is cyclic and the current segment is its last.
    /// Returns `false`, and leaves the cursor, where the path ends here.
    pub fn next_segment(&mut self, cyclic: bool) -> (moved: bool)
        requires
            old(self).index.0 < old(self).inner@.len(),
        ensures
            final(self).inner == old(self).inner,
            match advanced(old(self).inner@, old(self).index.0 as int, cyclic) {
                Some(c) => moved && final(self).cursor() == c,
                None => !moved && final(self).index == old(self).index,
            },
    {
        match self.inner.next_segment(self.index.0, cyclic) {
            Some(index) => {
                self.index = index;
                true
            },
            None => false,
        }
    }

    /// Decides what the robot does to come onto the path at the cursor.
    pub fn initialize(&self, pose: &Pose, light_radius: i64) -> (result: InitializeResult)
        requires
            self.wf(),
            on_path(self.inner@, self.cursor()),
            pose.wf(),
            0 < light_radius <= RADIUS_MAX,
        ensures
            result == match approach(*pose, self.rest()[0], light_radius as int) {
                Some(command) => InitializeResult::Drive(command),
                None => InitializeResult::Complete,
            },
            result == InitializeResult::Complete ==> pose.lights(
                light_radius as int,
                self.rest()[0].position,
            ),
    {
        self.inner.initialize(self.index, pose, light_radius)
    }
}

} // verus!
