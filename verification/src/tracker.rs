//! The tracker: a path, a cursor on it, and the state of following it.
use crate::geometry::{Pose, RADIUS_MAX};
use crate::path::{all_wf, on_path, relocated, sound, Path, RelocateConfig};
use crate::track::{approach, chord, goto, lemma_first_lit, lit_run_end, pursue, pursuit, track, Command};
use crate::{Error, State};
use vstd::prelude::*;

verus! {

/// How a path is followed.
#[derive(Clone, Copy, Debug, PartialEq, Eq, Structural)]
pub struct Parameters {
    /// How far from the robot a waypoint may be for a search to find it, in
    /// millimetres.
    pub search_radius: i64,
    /// Radius of the light disc, and its distance ahead of the robot, in
    /// millimetres.
    pub light_radius: i64,
    /// Whether the path is a closed loop.
    pub cyclic: bool,
    /// Whether the robot drives back onto the path by itself when it has
    /// lost it.
    pub auto_reinitialize: bool,
    /// How many waypoints before a tip point may be dropped to smooth the
    /// tip away, when the path is cut into segments.
    pub tip_ignore: usize,
}

/// What changes while a path is followed: the cursor and the state, with the
/// parameters beside them.
#[derive(Clone, Copy, Debug)]
pub struct TrackContext {
    pub parameters: Parameters,
    pub index: (usize, usize),
    pub state: State,
}

/// A path that is being followed.
pub struct Tracker<'a> {
    pub path: &'a Path,
    pub context: TrackContext,
}

/// Why no chord of the path is in sight.
#[derive(Clone, Copy, Debug, PartialEq, Eq, Structural)]
pub enum TrackError {
    /// The segment goes on, but the light disc shows none of it.
    OutOfPath,
    /// The segment has been followed to its end.
    Termination,
}

/// Whether the robot has come onto the path.
#[derive(Clone, Copy, Debug, PartialEq, Eq, Structural)]
pub enum InitializeResult {
    /// It has: the waypoint at the cursor is in the light disc, and the
    /// robot faces along the path.
    Complete,
    /// Not yet: this is what to do next.
    Drive(Command),
}

/// Where a tracker stands after a pose, and what it answers.
pub struct Step {
    pub state: State,
    pub cursor: (int, int),
    pub answer: Result<Command, Error>,
}

impl Parameters {
    /// The radii are positive and within `RADIUS_MAX`, and the search radius
    /// is not below the light radius.
    pub open spec fn wf(self) -> bool {
        0 < self.light_radius <= self.search_radius <= RADIUS_MAX
    }
}

impl Default for Parameters {
    /// The usual parameters: a search radius of 5 m, a light radius of
    /// 0.4 m, an open path, a robot that finds back by itself, and up to ten
    /// waypoints dropped at a tip.
    fn default() -> (p: Parameters)
        ensures
            p.wf(),
            p == (Parameters {
                search_radius: 5000,
                light_radius: 400,
                cyclic: false,
                auto_reinitialize: true,
                tip_ignore: 10,
            }),
    {
        Parameters {
            search_radius: 5000,
            light_radius: 400,
            cyclic: false,
            auto_reinitialize: true,
            tip_ignore: 10,
        }
    }
}

/// What the light disc of `pose` shows of `rest`, the waypoints of the
/// segment from the cursor on: the chord of the first run of waypoints in
/// the disc. Where it shows none, the segment is at its end if fewer than
/// two waypoints are left, and the path is lost otherwise.
pub open spec fn sighted(rest: Seq<Pose>, pose: Pose, radius: int) -> Result<(int, int), TrackError> {
    match chord(rest, pose, radius, 0) {
        Some(c) => Ok(c),
        None => if rest.len() < 2 {
            Err(TrackError::Termination)
        } else {
            Err(TrackError::OutOfPath)
        },
    }
}

/// The cursor behind the end of segment `i`: the beginning of the next
/// segment, or of the first where the path is cyclic and `i` is its last.
pub open spec fn advanced(segments: Seq<Seq<Pose>>, i: int, cyclic: bool) -> Option<(int, int)> {
    if i + 1 < segments.len() {
        Some((i + 1, 0))
    } else if cyclic {
        Some((0, 0))
    } else {
        None
    }
}

/// The waypoints of the segment of `c` from `c` on.
pub open spec fn rest_at(segments: Seq<Seq<Pose>>, c: (int, int)) -> Seq<Pose> {
    segments[c.0].skip(c.1)
}

/// The robot pursues the chord that shows from the waypoint at `c` on, which
/// is in the light disc.
pub open spec fn pursuing(segments: Seq<Seq<Pose>>, c: (int, int), pose: Pose, radius: int) -> Step {
    let rest = rest_at(segments, c);
    Step {
        state: State::Tracking,
        cursor: c,
        answer: Ok(pursuit(pose, radius, rest[0], rest[lit_run_end(rest, pose, radius, 0)])),
    }
}

/// What follows when the tracker begins to bring the robot onto the path at
/// `c`. While the robot is not there, it is told how to get there. Once it
/// is there, it pursues the path from `c` on.
pub open spec fn initializing(
    segments: Seq<Seq<Pose>>,
    parameters: Parameters,
    c: (int, int),
    pose: Pose,
) -> Step {
    match approach(pose, segments[c.0][c.1], parameters.light_radius as int) {
        Some(command) => Step { state: State::Initializing, cursor: c, answer: Ok(command) },
        None => pursuing(segments, c, pose, parameters.light_radius as int),
    }
}

/// What follows when the tracker looks for the path in the light disc, with
/// the cursor at `c`. Where the disc shows the path, the robot pursues it.
/// At the end of a segment the tracker goes on to the next one, if there is
/// one, and brings the robot onto it. Where the path is lost, the tracker
/// brings the robot back onto it if it is to do so by itself.
pub open spec fn tracking(
    segments: Seq<Seq<Pose>>,
    parameters: Parameters,
    c: (int, int),
    pose: Pose,
) -> Step {
    let rest = rest_at(segments, c);
    match sighted(rest, pose, parameters.light_radius as int) {
        Ok(ch) => Step {
            state: State::Tracking,
            cursor: (c.0, c.1 + ch.0),
            answer: Ok(pursuit(pose, parameters.light_radius as int, rest[ch.0], rest[ch.1])),
        },
        Err(TrackError::Termination) => match advanced(segments, c.0, parameters.cyclic) {
            Some(next) => initializing(segments, parameters, next, pose),
            None => Step { state: State::Tracking, cursor: c, answer: Err(Error::Complete) },
        },
        Err(TrackError::OutOfPath) => if parameters.auto_reinitialize {
            initializing(segments, parameters, c, pose)
        } else {
            Step { state: State::Tracking, cursor: c, answer: Err(Error::OutOfPath) }
        },
    }
}

/// What follows when the tracker searches the path for the robot, from the
/// cursor `c` on. Where it finds the robot, it brings it onto the path
/// there. Where it does not, it searches again at the next pose.
pub open spec fn relocating(
    segments: Seq<Seq<Pose>>,
    parameters: Parameters,
    c: (int, int),
    pose: Pose,
) -> Step {
    match relocated(segments, pose.position, parameters.search_radius as int, c, parameters.cyclic) {
        Some(found) => initializing(segments, parameters, found, pose),
        None => Step { state: State::Relocating, cursor: c, answer: Err(Error::RelocationFailed) },
    }
}

/// What follows a pose, from any state.
pub open spec fn step(
    segments: Seq<Seq<Pose>>,
    parameters: Parameters,
    state: State,
    c: (int, int),
    pose: Pose,
) -> Step {
    match state {
        State::Relocating => relocating(segments, parameters, c, pose),
        State::Initializing => initializing(segments, parameters, c, pose),
        State::Tracking => tracking(segments, parameters, c, pose),
    }
}

/// When the waypoint at the cursor is in the light disc, looking for the
/// path finds the chord that begins there.
pub proof fn lemma_tracking_lit(
    segments: Seq<Seq<Pose>>,
    parameters: Parameters,
    c: (int, int),
    pose: Pose,
)
    requires
        on_path(segments, c),
        pose.lights(parameters.light_radius as int, segments[c.0][c.1].position),
    ensures
        tracking(segments, parameters, c, pose) == pursuing(
            segments,
            c,
            pose,
            parameters.light_radius as int,
        ),
{
    let rest = rest_at(segments, c);
    assert(rest[0] == segments[c.0][c.1]);
}

/// A tracker that searches, with the first waypoint of the path within the
/// search radius of the robot and the robot on the path there already, goes
/// through to pursuit at the first pose: it answers with the command to
/// pursue, not with an error and not with an approach.
pub proof fn lemma_first_pose_pursues(segments: Seq<Seq<Pose>>, parameters: Parameters, pose: Pose)
    requires
        on_path(segments, (0, 0)),
        segments[0][0].position.within(pose.position, parameters.search_radius as int),
        approach(pose, segments[0][0], parameters.light_radius as int).is_none(),
    ensures
        step(segments, parameters, State::Relocating, (0, 0), pose) == pursuing(
            segments,
            (0, 0),
            pose,
            parameters.light_radius as int,
        ),
        step(segments, parameters, State::Relocating, (0, 0), pose).state == State::Tracking,
        step(segments, parameters, State::Relocating, (0, 0), pose).answer.is_ok(),
{
    assert(crate::path::first_near(
        segments,
        pose.position,
        parameters.search_radius as int,
        0,
        0,
        (segments.len() as int, 0),
    ) == Some((0int, 0int)));
}

/// A tracker answers with an error only in three cases: a search that finds
/// no waypoint, a path that is lost by a robot that is not to find back by
/// itself, and a path that is followed to its end. After any of them the
/// state and the cursor are what they were.
pub proof fn lemma_errors_keep_state(
    segments: Seq<Seq<Pose>>,
    parameters: Parameters,
    state: State,
    c: (int, int),
    pose: Pose,
)
    ensures
        step(segments, parameters, state, c, pose).answer.is_err() ==> {
            &&& step(segments, parameters, state, c, pose).state == state
            &&& step(segments, parameters, state, c, pose).cursor == c
            &&& state != State::Initializing
        },
        step(segments, parameters, state, c, pose).answer == Err::<Command, Error>(
            Error::RelocationFailed,
        ) <==> state == State::Relocating && relocated(
            segments,
            pose.position,
            parameters.search_radius as int,
            c,
            parameters.cyclic,
        ).is_none(),
        step(segments, parameters, state, c, pose).answer == Err::<Command, Error>(Error::OutOfPath)
            <==> state == State::Tracking && !parameters.auto_reinitialize && sighted(
            rest_at(segments, c),
            pose,
            parameters.light_radius as int,
        ) == Err::<(int, int), TrackError>(TrackError::OutOfPath),
        step(segments, parameters, state, c, pose).answer == Err::<Command, Error>(Error::Complete)
            <==> state == State::Tracking && sighted(
            rest_at(segments, c),
            pose,
            parameters.light_radius as int,
        ) == Err::<(int, int), TrackError>(TrackError::Termination) && advanced(
            segments,
            c.0,
            parameters.cyclic,
        ).is_none(),
{
}

/// While the light disc shows the segment that the robot is on, the cursor
/// stays on that segment and does not go back.
pub proof fn lemma_cursor_goes_on(
    segments: Seq<Seq<Pose>>,
    parameters: Parameters,
    c: (int, int),
    pose: Pose,
)
    requires
        sighted(rest_at(segments, c), pose, parameters.light_radius as int).is_ok(),
    ensures
        step(segments, parameters, State::Tracking, c, pose).state == State::Tracking,
        step(segments, parameters, State::Tracking, c, pose).cursor.0 == c.0,
        step(segments, parameters, State::Tracking, c, pose).cursor.1 >= c.1,
{
    lemma_first_lit(rest_at(segments, c), pose, parameters.light_radius as int, 0);
}

impl Path {
    /// Looks for the path in the light disc, from the cursor `index` on in
    /// its segment. Where the disc shows a chord of it, returns the index in
    /// the segment of the first waypoint of the chord, and the command to
    /// pursue the chord.
    pub fn track_within(&self, index: (usize, usize), pose: &Pose, light_radius: i64) -> (result:
        Result<(usize, Command), TrackError>)
        requires
            sound(self@),
            index.0 < self@.len(),
            index.1 <= self@[index.0 as int].len(),
            pose.wf(),
            0 < light_radius <= RADIUS_MAX,
        ensures
            match sighted(
                rest_at(self@, (index.0 as int, index.1 as int)),
                *pose,
                light_radius as int,
            ) {
                Ok(c) => {
                    let rest = rest_at(self@, (index.0 as int, index.1 as int));
                    &&& result matches Ok((j, command))
                    &&& j == index.1 + c.0
                    &&& command == pursuit(*pose, light_radius as int, rest[c.0], rest[c.1])
                    &&& on_path(self@, (index.0 as int, index.1 + c.0))
                },
                Err(e) => result == Err::<(usize, Command), TrackError>(e),
            },
    {
        let ghost segment = self@[index.0 as int];
        proof {
            assert(all_wf(segment));
        }
        let len: usize = self.0[index.0].len();
        let rest = self.slice(index);
        assert(rest@.len() + index.1 == len);
        assert forall|k: int| 0 <= k < rest@.len() implies (#[trigger] rest@[k]).wf() by {
            assert(rest@[k] == segment[index.1 + k]);
        }
        match track(rest, pose, light_radius) {
            Some(c) => Ok((index.1 + c.near, pursue(pose, light_radius, &rest[c.near], &rest[c.far]))),
            None => {
                if rest.len() < 2 {
                    Err(TrackError::Termination)
                } else {
                    Err(TrackError::OutOfPath)
                }
            },
        }
    }

    /// The cursor at the beginning of the segment behind segment `i`: of
    /// the first segment where the path is cyclic and `i` is its last.
    /// `None` where the path ends with segment `i`.
    pub fn next_segment(&self, i: usize, cyclic: bool) -> (next: Option<(usize, usize)>)
        requires
            i < self@.len(),
        ensures
            match advanced(self@, i as int, cyclic) {
                Some(c) => next matches Some(n) && n.0 == c.0 && n.1 == c.1 && c.0 < self@.len(),
                None => next.is_none(),
            },
    {
        let len: usize = self.0.len();
        assert(len == self@.len());
        if i + 1 < len {
            Some((i + 1, 0))
        } else if cyclic {
            Some((0, 0))
        } else {
            None
        }
    }

    /// Decides what the robot does to come onto the path at the cursor
    /// `index`.
    pub fn initialize(&self, index: (usize, usize), pose: &Pose, light_radius: i64) -> (result:
        InitializeResult)
        requires
            sound(self@),
            on_path(self@, (index.0 as int, index.1 as int)),
            pose.wf(),
            0 < light_radius <= RADIUS_MAX,
        ensures
            result == match approach(
                *pose,
                self@[index.0 as int][index.1 as int],
                light_radius as int,
            ) {
                Some(command) => InitializeResult::Drive(command),
                None => InitializeResult::Complete,
            },
            result == InitializeResult::Complete ==> pose.lights(
                light_radius as int,
                self@[index.0 as int][index.1 as int].position,
            ),
    {
        proof {
            assert(all_wf(self@[index.0 as int]));
        }
        let rest = self.slice(index);
        match goto(pose, &rest[0], light_radius) {
            Some(command) => InitializeResult::Drive(command),
            None => InitializeResult::Complete,
        }
    }
}

impl TrackContext {
    /// The cursor, as a pair of integers.
    pub open spec fn cursor(self) -> (int, int) {
        (self.index.0 as int, self.index.1 as int)
    }

    /// The context of a tracker that has not begun: the cursor is at the
    /// beginning of the path, and the path is to be searched for the robot.
    pub fn new(parameters: Parameters) -> (context: Self)
        ensures
            context == (TrackContext { parameters, index: (0usize, 0usize), state: State::Relocating }),
    {
        TrackContext { parameters, index: (0, 0), state: State::Relocating }
    }
}

impl<'a> Tracker<'a> {
    /// The parameters are well formed, the path is sound, the cursor is on a
    /// segment of it, and outside a search it is at a waypoint.
    pub open spec fn wf(&self) -> bool {
        &&& self.context.parameters.wf()
        &&& sound(self.path@)
        &&& self.context.index.0 < self.path@.len()
        &&& self.context.index.1 <= self.path@[self.context.index.0 as int].len()
        &&& self.context.state != State::Relocating ==> on_path(self.path@, self.context.cursor())
    }

    /// A tracker of `path` that has not begun.
    pub fn new(path: &'a Path, parameters: Parameters) -> (tracker: Self)
        requires
            parameters.wf(),
            sound(path@),
        ensures
            tracker.wf(),
            tracker.path == path,
            tracker.context == (TrackContext {
                parameters,
                index: (0usize, 0usize),
                state: State::Relocating,
            }),
    {
        Tracker { path, context: TrackContext::new(parameters) }
    }

    /// Takes the pose of the robot and answers what it is to do.
    ///
    /// A tracker that searches looks for the first waypoint within the
    /// search radius, and fails with `RelocationFailed` where there is none.
    /// Having found one, it brings the robot onto the path there, and then
    /// pursues the path. All of that may happen for one pose.
    pub fn track(&mut self, pose: &Pose) -> (answer: Result<Command, Error>)
        requires
            old(self).wf(),
            pose.wf(),
        ensures
            final(self).wf(),
            final(self).path == old(self).path,
            final(self).context.parameters == old(self).context.parameters,
            (Step {
                state: final(self).context.state,
                cursor: final(self).context.cursor(),
                answer,
            }) == step(
                old(self).path@,
                old(self).context.parameters,
                old(self).context.state,
                old(self).context.cursor(),
                *pose,
            ),
    {
        let ghost segments = self.path@;
        let ghost parameters = self.context.parameters;
        let ghost goal = step(segments, parameters, self.context.state, self.context.cursor(), *pose);
        let ghost mut fresh = false;
        let light_radius: i64 = self.context.parameters.light_radius;
        let cyclic: bool = self.context.parameters.cyclic;
        loop
            invariant
                self.wf(),
                pose.wf(),
                self.path == old(self).path,
                self.path@ == segments,
                self.context.parameters == parameters,
                parameters == old(self).context.parameters,
                light_radius == parameters.light_radius,
                cyclic == parameters.cyclic,
                step(segments, parameters, self.context.state, self.context.cursor(), *pose) == goal,
                goal == step(
                    old(self).path@,
                    old(self).context.parameters,
                    old(self).context.state,
                    old(self).context.cursor(),
                    *pose,
                ),
                fresh ==> self.context.state == State::Tracking && pose.lights(
                    light_radius as int,
                    segments[self.context.cursor().0][self.context.cursor().1].position,
                ),
            decreases
                    (match self.context.state {
                        State::Relocating => 4int,
                        State::Tracking => if fresh {
                            1int
                        } else {
                            3int
                        },
                        State::Initializing => 2int,
                    }),
        {
            match self.context.state {
                State::Relocating => {
                    let found = self.path.relocate(
                        RelocateConfig {
                            pose: *pose,
                            index: self.context.index,
                            search_radius: self.context.parameters.search_radius,
                            cyclic,
                        },
                    );
                    match found {
                        Some(index) => {
                            self.context.index = index;
                            self.context.state = State::Initializing;
                        },
                        None => {
                            return Err(Error::RelocationFailed);
                        },
                    }
                },
                State::Initializing => {
                    match self.path.initialize(self.context.index, pose, light_radius) {
                        InitializeResult::Complete => {
                            proof {
                                lemma_tracking_lit(segments, parameters, self.context.cursor(), *pose);
                                fresh = true;
                            }
                            self.context.state = State::Tracking;
                        },
                        InitializeResult::Drive(command) => {
                            return Ok(command);
                        },
                    }
                },
                State::Tracking => {
                    proof {
                        if fresh {
                            lemma_tracking_lit(segments, parameters, self.context.cursor(), *pose);
                        }
                    }
                    match self.path.track_within(self.context.index, pose, light_radius) {
                        Ok((index, command)) => {
                            self.context.index.1 = index;
                            return Ok(command);
                        },
                        Err(TrackError::OutOfPath) => {
                            if self.context.parameters.auto_reinitialize {
                                self.context.state = State::Initializing;
                            } else {
                                return Err(Error::OutOfPath);
                            }
                        },
                        Err(TrackError::Termination) => {
                            match self.path.next_segment(self.context.index.0, cyclic) {
                                Some(index) => {
                                    proof {
                                        assert(segments[index.0 as int].len() > 0);
                                    }
                                    self.context.index = index;
                                    self.context.state = State::Initializing;
                                },
                                None => {
                                    return Err(Error::Complete);
                                },
                            }
                        },
                    }
                },
            }
        }
    }
}

} // verus!
