//! Following a path: a task that owns its path.
use crate::geometry::Pose;
use crate::path::{all_wf, on_path};
use crate::track::Command;
use crate::tracker::{step, Step, TrackContext, Tracker};
use crate::State;
use vstd::prelude::*;

pub mod path;

pub use crate::tracker::Parameters;
pub use crate::Error;
use path::Path;

verus! {

/// A task that follows a path.
pub struct Task {
    pub parameters: Parameters,
    pub path: Path,
    pub state: State,
}

impl Task {
    /// The parameters and the path are well formed, and outside a search the
    /// cursor is at a waypoint.
    pub open spec fn wf(&self) -> bool {
        &&& self.parameters.wf()
        &&& self.path.wf()
        &&& self.state != State::Relocating ==> on_path(self.path.inner@, self.path.cursor())
    }

    /// A task that follows the path through `points`. The path is cut into
    /// segments first. The task begins by searching the path for the robot.
    pub fn new(points: &[Pose], parameters: Parameters) -> (task: Task)
        requires
            all_wf(points@),
            parameters.wf(),
        ensures
            task.wf(),
            task.parameters == parameters,
            task.state == State::Relocating,
            task.path.index == (0usize, 0usize),
            task.path.inner@ == crate::path::build(
                points@,
                parameters.light_radius as int,
                parameters.tip_ignore as int,
            ),
            crate::path::segmented(task.path.inner@, parameters.light_radius as int),
    {
        Task {
            parameters,
            path: Path::new(
                crate::path::Path::new(points, parameters.light_radius, parameters.tip_ignore),
            ),
            state: State::Relocating,
        }
    }

    /// The segments of the path, to look at.
    pub fn view(&self) -> (segments: &Vec<Vec<Pose>>)
        ensures
            segments == self.path.inner.0,
    {
        &self.path.inner.0
    }

    /// Makes the task search the path for the robot at the next pose.
    pub fn relocate(&mut self)
        ensures
            final(self).state == State::Relocating,
            final(self).parameters == old(self).parameters,
            final(self).path == old(self).path,
            old(self).wf() ==> final(self).wf(),
    {
        self.state = State::Relocating;
    }

    /// Takes the pose of the robot and answers what it is to do.
    ///
    /// A task that searches looks for the first waypoint within the search
    /// radius, and fails with `RelocationFailed` where there is none. Having
    /// found one, it brings the robot onto the path there, and then pursues
    /// the path. All of that may happen for one pose.
    pub fn track(&mut self, pose: &Pose) -> (answer: Result<Command, Error>)
        requires
            old(self).wf(),
            pose.wf(),
        ensures
            final(self).wf(),
            final(self).parameters == old(self).parameters,
            final(self).path.inner == old(self).path.inner,
            (Step { state: final(self).state, cursor: final(self).path.cursor(), answer }) == step(
                old(self).path.inner@,
                old(self).parameters,
                old(self).state,
                old(self).path.cursor(),
                *pose,
            ),
    {
        let mut tracker = Tracker {
            path: &self.path.inner,
            context: TrackContext {
                parameters: self.parameters,
                index: self.path.index,
                state: self.state,
            },
        };
        let answer = tracker.track(pose);
        let context = tracker.context;
        self.path.index = context.index;
        self.state = context.state;
        answer
    }
}

} // verus!
