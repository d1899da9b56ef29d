//! The two kinds of task: recording a path, and following one.
use vstd::prelude::*;

pub mod record;
pub mod track;

verus! {

/// A task is one of two things.
pub enum Task {
    /// The robot is driven by hand and its path is written down.
    Record(record::Task),
    /// The robot follows a path written down before.
    Follow(track::Task),
}

} // verus!
