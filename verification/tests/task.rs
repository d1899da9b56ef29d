use path_follower::geometry::{Pose, UNIT};
use path_follower::task::track::path::{InitializeResult, Path, TrackError};
use path_follower::task::track::{Parameters, Task};
use path_follower::geometry::Direction;
use path_follower::track::{pursue, Command};
use path_follower::{Error, State, TrackContext, Tracker};

fn east(x: i64, y: i64) -> Pose {
    Pose::new(x, y, UNIT, 0).unwrap()
}

fn north(x: i64, y: i64) -> Pose {
    Pose::new(x, y, 0, UNIT).unwrap()
}

fn line(n: i64, step: i64) -> Vec<Pose> {
    (0..n).map(|i| east(i * step, 0)).collect()
}

fn corner() -> Vec<Pose> {
    vec![
        east(0, 0),
        east(300, 0),
        east(600, 0),
        north(600, 500),
        north(600, 800),
        north(600, 1100),
    ]
}

fn drive(speed: i64, x: i64, y: i64) -> Command {
    Command::Drive { speed, turn: Direction { x: x as i128, y: y as i128 } }
}

/// The command to pursue the chord from `near` to `far`, seen from `pose`
/// with a light radius of 400.
fn chord(pose: Pose, near: Pose, far: Pose) -> Command {
    pursue(&pose, 400, &near, &far)
}

/// The speed, as a part of full speed, and the turn rate in radians that a
/// command asks for.
fn speed_and_turn(command: &Command) -> (f64, f64) {
    match command {
        Command::Drive { speed, turn } => (*speed as f64 / 1000.0, (turn.y as f64).atan2(turn.x as f64)),
        Command::Pursue { entry, exit } => {
            let diff = (exit.y as f64).atan2(exit.x as f64) - (entry.y as f64).atan2(entry.x as f64);
            (1.0, (diff.signum() * std::f64::consts::PI - diff) / 2.0)
        }
    }
}

fn parameters(cyclic: bool, auto_reinitialize: bool) -> Parameters {
    Parameters { search_radius: 5000, light_radius: 400, cyclic, auto_reinitialize, tip_ignore: 0 }
}

#[test]
fn default_parameters() {
    let p = Parameters::default();
    assert_eq!(
        p,
        Parameters {
            search_radius: 5000,
            light_radius: 400,
            cyclic: false,
            auto_reinitialize: true,
            tip_ignore: 10,
        }
    );
}

#[test]
fn a_new_task_searches_from_the_beginning() {
    let task = Task::new(&corner(), parameters(false, true));
    assert_eq!(task.state, State::Relocating);
    assert_eq!(task.path.index, (0, 0));
    assert_eq!(task.view().len(), 2);
    assert_eq!(task.view()[0], corner()[..3].to_vec());
    assert_eq!(task.view()[1], corner()[3..].to_vec());
}

#[test]
fn straight_line_from_behind_the_first_waypoint() {
    // Ten poses half a metre apart; the robot one light radius behind the first.
    let points = line(10, 500);
    let mut task = Task::new(&points, Parameters::default());
    let answer = task.track(&east(-400, 0));
    assert_eq!(answer, Ok(chord(east(-400, 0), points[0], points[0])));
    assert_eq!(task.state, State::Tracking);
    assert_eq!(task.path.index, (0, 0));
    let (speed, turn) = speed_and_turn(&answer.unwrap());
    assert_eq!(speed, 1.0);
    assert!(turn.abs() < 1e-9);
    // Further on the cursor follows.
    let answer = task.track(&east(200, 0));
    assert_eq!(answer, Ok(chord(east(200, 0), points[1], points[1])));
    assert_eq!(task.path.index, (0, 1));
    let answer = task.track(&east(1250, 0));
    assert_eq!(answer, Ok(chord(east(1250, 0), points[3], points[4])));
    assert_eq!(task.path.index, (0, 3));
}

#[test]
fn straight_line_from_the_first_waypoint() {
    // The robot stands on the first waypoint, which is then on the rim of
    // the light disc: the robot backs up before it pursues.
    let points = line(10, 500);
    let mut task = Task::new(&points, Parameters::default());
    let answer = task.track(&east(0, 0));
    assert_eq!(answer, Ok(drive(-400, 400 * UNIT * UNIT, 0)));
    assert_eq!(speed_and_turn(&answer.unwrap()), (-0.4, 0.0));
    assert_eq!(task.state, State::Initializing);
    assert_eq!(task.path.index, (0, 0));
    let answer = task.track(&east(-330, 0));
    assert_eq!(answer, Ok(chord(east(-330, 0), points[0], points[0])));
    assert_eq!(task.state, State::Tracking);
}

#[test]
fn a_search_that_finds_nothing_is_tried_again() {
    let mut task = Task::new(&line(10, 500), Parameters::default());
    assert_eq!(task.track(&east(0, 6000)), Err(Error::RelocationFailed));
    assert_eq!(task.state, State::Relocating);
    assert_eq!(task.path.index, (0, 0));
    assert_eq!(task.track(&east(-10000, 0)), Err(Error::RelocationFailed));
    assert!(task.track(&east(-400, 0)).is_ok());
    assert_eq!(task.state, State::Tracking);
}

#[test]
fn an_empty_path_is_never_found() {
    let mut task = Task::new(&[], Parameters::default());
    assert_eq!(task.view(), &vec![Vec::<Pose>::new()]);
    assert_eq!(task.track(&east(0, 0)), Err(Error::RelocationFailed));
    assert_eq!(task.state, State::Relocating);
}

#[test]
fn the_search_takes_the_first_waypoint_in_reach() {
    let points = line(10, 500);
    let mut task = Task::new(&points, parameters(false, true));
    // Every waypoint is within five metres of the robot; the first is taken.
    let answer = task.track(&east(2100, 0));
    assert_eq!(task.path.index, (0, 0));
    assert_eq!(task.state, State::Initializing);
    assert_eq!(
        answer,
        Ok(drive(1000, 0, -1))
    );
}

#[test]
fn the_end_of_the_path_completes_the_task() {
    let points = line(3, 300);
    let mut task = Task::new(&points, parameters(false, true));
    assert!(task.track(&east(-400, 0)).is_ok());
    assert_eq!(task.track(&east(300, 0)), Ok(chord(east(300, 0), points[2], points[2])));
    assert_eq!(task.path.index, (0, 2));
    // The last waypoint leaves the disc behind the robot.
    assert_eq!(task.track(&east(700, 0)), Err(Error::Complete));
    assert_eq!(task.state, State::Tracking);
    assert_eq!(task.path.index, (0, 2));
    assert_eq!(task.track(&east(700, 0)), Err(Error::Complete));
}

#[test]
fn a_lost_path_is_an_error_or_is_approached_again() {
    let points = line(10, 300);
    let mut task = Task::new(&points, parameters(false, false));
    assert!(task.track(&east(-400, 0)).is_ok());
    assert_eq!(task.track(&east(0, 2000)), Err(Error::OutOfPath));
    assert_eq!(task.state, State::Tracking);
    assert_eq!(task.path.index, (0, 0));

    let mut task = Task::new(&points, parameters(false, true));
    assert!(task.track(&east(-400, 0)).is_ok());
    let answer = task.track(&east(0, 2000));
    assert_eq!(
        answer,
        Ok(drive(1000, 0, 1))
    );
    assert_eq!(task.state, State::Initializing);
    assert_eq!(task.path.index, (0, 0));
}

#[test]
fn the_task_goes_on_to_the_next_segment() {
    let points = corner();
    let mut task = Task::new(&points, parameters(false, true));
    assert!(task.track(&east(-400, 0)).is_ok());
    assert_eq!(task.track(&east(250, 0)), Ok(chord(east(250, 0), points[1], points[2])));
    assert_eq!(task.track(&east(500, 0)), Ok(chord(east(500, 0), points[2], points[2])));
    assert_eq!(task.path.index, (0, 2));
    // The robot has turned: its light disc no longer shows the end of the
    // first segment, but the beginning of the second is at its light spot.
    let answer = task.track(&north(600, 100));
    assert_eq!(answer, Ok(chord(north(600, 100), points[3], points[4])));
    assert_eq!(task.state, State::Tracking);
    assert_eq!(task.path.index, (1, 0));
}

#[test]
fn the_next_segment_is_approached_where_it_is_not_at_hand() {
    let points = corner();
    let mut task = Task::new(&points, parameters(false, true));
    assert!(task.track(&east(-400, 0)).is_ok());
    assert!(task.track(&east(500, 0)).is_ok());
    assert_eq!(task.path.index, (0, 2));
    let answer = task.track(&east(1000, 0));
    assert_eq!(task.state, State::Initializing);
    assert_eq!(task.path.index, (1, 0));
    assert_eq!(
        answer,
        Ok(drive(-943, 800 * UNIT * UNIT, -500 * UNIT * UNIT))
    );
    // Facing north at the light spot, the robot is told to pursue.
    let answer = task.track(&north(600, 100));
    assert_eq!(answer, Ok(chord(north(600, 100), points[3], points[4])));
}

#[test]
fn a_cyclic_path_goes_round() {
    let points = corner();
    let mut task = Task::new(&points, parameters(true, true));
    assert!(task.track(&east(-400, 0)).is_ok());
    assert!(task.track(&east(500, 0)).is_ok());
    assert_eq!(task.path.index, (0, 2));
    assert_eq!(task.track(&north(600, 100)), Ok(chord(north(600, 100), points[3], points[4])));
    assert_eq!(task.track(&north(600, 450)), Ok(chord(north(600, 450), points[3], points[5])));
    assert_eq!(task.path.index, (1, 0));
    assert_eq!(task.track(&north(600, 750)), Ok(chord(north(600, 750), points[4], points[5])));
    assert_eq!(task.path.index, (1, 1));
    assert_eq!(task.track(&north(600, 1000)), Ok(chord(north(600, 1000), points[5], points[5])));
    assert_eq!(task.path.index, (1, 2));
    // Behind the last waypoint the task turns to the first segment again.
    let answer = task.track(&north(600, 1200));
    assert_eq!(task.path.index, (0, 0));
    assert_eq!(task.state, State::Initializing);
    assert_eq!(
        answer,
        Ok(drive(1000, 0, -1))
    );

    let mut open = Task::new(&points, parameters(false, true));
    assert!(open.track(&east(-400, 0)).is_ok());
    assert!(open.track(&east(500, 0)).is_ok());
    assert!(open.track(&north(600, 100)).is_ok());
    assert!(open.track(&north(600, 1000)).is_ok());
    assert_eq!(open.path.index, (1, 2));
    assert_eq!(open.track(&north(600, 1200)), Err(Error::Complete));
    assert_eq!(open.state, State::Tracking);
    assert_eq!(open.path.index, (1, 2));
}

#[test]
fn relocate_makes_the_task_search_again() {
    let points = line(10, 300);
    let mut task = Task::new(&points, parameters(false, true));
    assert!(task.track(&east(-400, 0)).is_ok());
    assert!(task.track(&east(800, 0)).is_ok());
    assert_eq!(task.path.index, (0, 3));
    task.relocate();
    assert_eq!(task.state, State::Relocating);
    assert_eq!(task.path.index, (0, 3));
    // The search goes on from the cursor: what lies behind it is not found
    // on an open path.
    let mut near_start = parameters(false, true);
    near_start.search_radius = 400;
    task.parameters = near_start;
    assert_eq!(task.track(&east(0, 0)), Err(Error::RelocationFailed));
    assert_eq!(task.state, State::Relocating);
    let answer = task.track(&east(1100, 0));
    assert_eq!(task.path.index, (0, 3));
    assert_eq!(
        answer,
        Ok(drive(-600, 600 * UNIT * UNIT, 0))
    );
    assert_eq!(task.state, State::Initializing);
    let answer = task.track(&east(500, 0));
    assert_eq!(answer, Ok(chord(east(500, 0), points[3], points[4])));
    assert_eq!(task.state, State::Tracking);
}

#[test]
fn cursor_path_steps() {
    let points = corner();
    let inner = path_follower::path::Path::new(&points, 400, 0);
    let mut path = Path::new(inner);
    assert_eq!(path.index, (0, 0));
    assert!(!path.relocate(&east(0, 3000), 500, true));
    assert_eq!(path.index, (0, 0));
    assert!(path.relocate(&east(600, 820), 50, false));
    assert_eq!(path.index, (1, 1));
    assert_eq!(path.initialize(&north(600, 400), 400), InitializeResult::Complete);
    assert_eq!(
        path.initialize(&east(200, 800), 400),
        InitializeResult::Drive(drive(1000, 0, -1))
    );
    assert_eq!(
        path.track_within(&north(600, 750), 400),
        Ok(chord(north(600, 750), points[4], points[5]))
    );
    assert_eq!(path.index, (1, 1));
    assert_eq!(
        path.track_within(&north(600, 1000), 400),
        Ok(chord(north(600, 1000), points[5], points[5]))
    );
    assert_eq!(path.index, (1, 2));
    assert_eq!(path.track_within(&north(600, 1600), 400), Err(TrackError::Termination));
    assert_eq!(path.index, (1, 2));
    assert!(!path.next_segment(false));
    assert_eq!(path.index, (1, 2));
    assert!(path.next_segment(true));
    assert_eq!(path.index, (0, 0));
    assert_eq!(path.track_within(&north(600, 1600), 400), Err(TrackError::OutOfPath));
    assert_eq!(path.index, (0, 0));
    assert!(path.next_segment(false));
    assert_eq!(path.index, (1, 0));
}

#[test]
fn a_tracker_follows_a_path_that_it_borrows() {
    let points = line(10, 500);
    let path = path_follower::path::Path::new(&points, 400, 10);
    let context = TrackContext::new(Parameters::default());
    assert_eq!(context.index, (0, 0));
    assert_eq!(context.state, State::Relocating);
    assert_eq!(context.parameters, Parameters::default());
    let mut tracker = Tracker::new(&path, Parameters::default());
    assert_eq!(tracker.context.index, (0, 0));
    assert_eq!(tracker.context.state, State::Relocating);
    // One call goes from the search through the approach to the pursuit.
    assert_eq!(tracker.track(&east(-400, 0)), Ok(chord(east(-400, 0), points[0], points[0])));
    assert_eq!(tracker.context.state, State::Tracking);
    assert_eq!(tracker.context.index, (0, 0));
    assert_eq!(tracker.track(&east(1250, 0)), Ok(chord(east(1250, 0), points[3], points[4])));
    assert_eq!(tracker.context.index, (0, 3));
    assert_eq!(tracker.track(&east(4200, 0)), Ok(chord(east(4200, 0), points[9], points[9])));
    assert_eq!(tracker.context.index, (0, 9));
    assert_eq!(tracker.track(&east(4600, 0)), Err(Error::Complete));
    assert_eq!(tracker.context.state, State::Tracking);
    // A second tracker of the same path stands where it began.
    let mut other = Tracker { path: &path, context };
    assert_eq!(other.track(&east(0, 9000)), Err(Error::RelocationFailed));
    assert_eq!(other.context.state, State::Relocating);
    assert_eq!(other.track(&east(0, 0)), Ok(drive(-400, 400 * UNIT * UNIT, 0)));
    assert_eq!(other.context.state, State::Initializing);
}

#[test]
fn a_tracker_and_a_task_answer_alike() {
    let points = corner();
    let path = path_follower::path::Path::new(&points, 400, 0);
    let mut tracker = Tracker::new(&path, parameters(true, true));
    let mut task = Task::new(&points, parameters(true, true));
    let poses = [
        east(-400, 0),
        east(100, 30),
        east(500, 0),
        north(600, 100),
        north(620, 450),
        north(600, 750),
        north(600, 1000),
        north(600, 1200),
        east(-400, 0),
        east(0, 3000),
    ];
    for pose in &poses {
        assert_eq!(tracker.track(pose), task.track(pose));
        assert_eq!(tracker.context.index, task.path.index);
        assert_eq!(tracker.context.state, task.state);
    }
}

#[test]
fn a_path_steps_from_a_cursor() {
    let points = corner();
    let path = path_follower::path::Path::new(&points, 400, 0);
    assert_eq!(path.next_segment(0, false), Some((1, 0)));
    assert_eq!(path.next_segment(1, false), None);
    assert_eq!(path.next_segment(1, true), Some((0, 0)));
    assert_eq!(path.initialize((1, 1), &north(600, 400), 400), InitializeResult::Complete);
    assert_eq!(
        path.track_within((1, 0), &north(600, 750), 400),
        Ok((1, chord(north(600, 750), points[4], points[5])))
    );
    assert_eq!(path.track_within((1, 2), &north(600, 1600), 400), Err(TrackError::Termination));
    assert_eq!(path.track_within((1, 3), &north(600, 1600), 400), Err(TrackError::Termination));
    assert_eq!(path.track_within((0, 1), &north(600, 1600), 400), Err(TrackError::OutOfPath));
}
