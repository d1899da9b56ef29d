//! Drives a wheeled robot along a recorded path.
//!
//! A path is a list of poses. It is cut into segments where it turns too
//! sharply to be followed in one go. A task follows it from a cursor: it
//! finds the robot on the path, brings it onto the path, and then pursues the
//! part of the path that shows in a disc ahead of the robot, the light disc.
use vstd::prelude::*;

pub mod geometry;
pub mod path;
pub mod task;
pub mod text;
pub mod track;
pub mod tracker;

pub use tracker::{Parameters, TrackContext, Tracker};

verus! {

/// Phase of a tracking task.
#[derive(Clone, Copy, Debug, PartialEq, Eq, Structural)]
pub enum State {
    /// The cursor is unknown and has to be found again by search.
    Relocating,
    /// The cursor is known and the robot is driving onto the path.
    Initializing,
    /// The robot is on the path and pursues it.
    Tracking,
}

/// Why a task has no command to give.
#[derive(Clone, Copy, Debug, PartialEq, Eq, Structural)]
pub enum Error {
    /// No waypoint is within the search radius of the robot. The next pose
    /// is searched for again.
    RelocationFailed,
    /// The robot has lost the path, and the task does not drive back to it
    /// by itself.
    OutOfPath,
    /// The path has been followed to its end.
    Complete,
}

} // verus!
