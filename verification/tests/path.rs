use path_follower::geometry::{Pose, UNIT};
use path_follower::path::{Path, RelocateConfig};

fn east(x: i64, y: i64) -> Pose {
    Pose::new(x, y, UNIT, 0).unwrap()
}

fn north(x: i64, y: i64) -> Pose {
    Pose::new(x, y, 0, UNIT).unwrap()
}

fn west(x: i64, y: i64) -> Pose {
    Pose::new(x, y, -UNIT, 0).unwrap()
}

fn line(n: i64, step: i64) -> Vec<Pose> {
    (0..n).map(|i| east(i * step, 0)).collect()
}

#[test]
fn pose_new_checks_range_and_heading() {
    assert!(Pose::new(0, 0, UNIT, 0).is_some());
    assert!(Pose::new(0, 0, 11585, 11585).is_some());
    assert!(Pose::new(0, 0, 0, 0).is_none());
    assert!(Pose::new(0, 0, UNIT, UNIT).is_none());
    assert!(Pose::new(1_000_000_001, 0, UNIT, 0).is_none());
    assert!(Pose::new(0, -1_000_000_001, UNIT, 0).is_none());
    assert!(Pose::new(1_000_000_000, -1_000_000_000, 0, -UNIT).is_some());
}

#[test]
fn empty_input_gives_one_empty_segment() {
    let path = Path::new(&[], 400, 10);
    assert_eq!(path.0, vec![Vec::<Pose>::new()]);
}

#[test]
fn single_point_gives_one_segment() {
    let path = Path::new(&[east(3, 4)], 400, 10);
    assert_eq!(path.0, vec![vec![east(3, 4)]]);
}

#[test]
fn straight_line_is_one_segment() {
    let points = line(10, 500);
    let path = Path::new(&points, 400, 0);
    assert_eq!(path.0, vec![points]);
}

#[test]
fn points_on_the_rim_of_the_disc_break_the_path() {
    // 800 ahead is on the rim of the disc about the point 400 ahead: outside.
    let path = Path::new(&[east(0, 0), east(800, 0)], 400, 0);
    assert_eq!(path.0, vec![vec![east(0, 0)], vec![east(800, 0)]]);
    let path = Path::new(&[east(0, 0), east(799, 0)], 400, 0);
    assert_eq!(path.0, vec![vec![east(0, 0), east(799, 0)]]);
    // The point itself is on the rim too.
    let path = Path::new(&[east(0, 0), east(0, 0)], 400, 0);
    assert_eq!(path.0, vec![vec![east(0, 0)], vec![east(0, 0)]]);
}

#[test]
fn a_turn_of_sixty_degrees_breaks_the_path() {
    // cos 60 = 8192 / 16384, sin 60 = 14189 / 16384: a little over 60 degrees.
    let sixty = Pose::new(300, 0, 8192, 14189).unwrap();
    let path = Path::new(&[east(0, 0), sixty], 400, 0);
    assert_eq!(path.0.len(), 2);
    // A little under 60 degrees.
    let less = Pose::new(300, 0, 8240, 14161).unwrap();
    let path = Path::new(&[east(0, 0), less], 400, 0);
    assert_eq!(path.0.len(), 1);
}

#[test]
fn a_reversal_opens_a_new_segment() {
    let points = vec![east(0, 0), east(300, 0), east(600, 0), west(300, 0), west(0, 0)];
    let path = Path::new(&points, 400, 0);
    assert_eq!(
        path.0,
        vec![
            vec![east(0, 0), east(300, 0), east(600, 0)],
            vec![west(300, 0), west(0, 0)],
        ]
    );
}

#[test]
fn a_kink_is_bridged_by_looking_back() {
    // The third point jumps aside; the fourth continues the second.
    let points = vec![east(0, 0), east(300, 0), east(300, 900), east(600, 0), east(900, 0)];
    let strict = Path::new(&points, 400, 0);
    assert_eq!(
        strict.0,
        vec![
            vec![east(0, 0), east(300, 0)],
            vec![east(300, 900)],
            vec![east(600, 0), east(900, 0)],
        ]
    );
    let bridged = Path::new(&points, 400, 1);
    assert_eq!(
        bridged.0,
        vec![vec![east(0, 0), east(300, 0)], vec![east(300, 900)], vec![east(600, 0), east(900, 0)]]
    );
}

#[test]
fn looking_back_drops_the_points_of_a_kink() {
    // The third point lies aside but continues the second; the fourth
    // continues the second, not the third.
    let aside = east(550, 300);
    let points = vec![east(0, 0), east(300, 0), aside, east(600, 0), east(900, 0)];
    let strict = Path::new(&points, 400, 0);
    assert_eq!(
        strict.0,
        vec![vec![east(0, 0), east(300, 0), aside], vec![east(600, 0), east(900, 0)]]
    );
    let bridged = Path::new(&points, 400, 1);
    assert_eq!(bridged.0, vec![vec![east(0, 0), east(300, 0), east(600, 0), east(900, 0)]]);
    let wide = Path::new(&points, 400, 10);
    assert_eq!(wide.0, bridged.0);
}

#[test]
fn building_again_from_the_waypoints_changes_nothing() {
    let aside = east(550, 300);
    let points = vec![
        east(0, 0),
        east(300, 0),
        aside,
        east(600, 0),
        east(900, 0),
        north(900, 300),
        north(900, 600),
        west(600, 600),
    ];
    for tip_ignore in [0usize, 1, 2, 10] {
        let path = Path::new(&points, 400, tip_ignore);
        let again = Path::new(&path.flatten(), 400, 0);
        assert_eq!(again.0, path.0);
    }
    let empty = Path::new(&[], 400, 3);
    assert_eq!(Path::new(&empty.flatten(), 400, 0).0, empty.0);
}

#[test]
fn flatten_gives_the_waypoints_in_order() {
    let points = vec![east(0, 0), east(300, 0), north(300, 0), north(300, 300)];
    let path = Path::new(&points, 400, 0);
    assert_eq!(path.0.len(), 2);
    assert_eq!(path.flatten(), points);
}

#[test]
fn slice_gives_the_rest_of_a_segment() {
    let points = vec![east(0, 0), east(300, 0), north(300, 0), north(300, 300)];
    let path = Path::new(&points, 400, 0);
    assert_eq!(path.slice((0, 0)), &[east(0, 0), east(300, 0)][..]);
    assert_eq!(path.slice((0, 1)), &[east(300, 0)][..]);
    assert_eq!(path.slice((1, 1)), &[north(300, 300)][..]);
    assert!(path.slice((1, 2)).is_empty());
}

fn two_segments() -> Path {
    let points = vec![
        east(0, 0),
        east(300, 0),
        east(600, 0),
        north(600, 100),
        north(600, 400),
        north(600, 700),
    ];
    let path = Path::new(&points, 400, 0);
    assert_eq!(path.0.len(), 2);
    path
}

fn config(x: i64, y: i64, index: (usize, usize), search_radius: i64, cyclic: bool) -> RelocateConfig {
    RelocateConfig { pose: east(x, y), index, search_radius, cyclic }
}

#[test]
fn relocate_returns_the_first_waypoint_within_the_radius() {
    let path = two_segments();
    // Both (0, 1) and (0, 2) are within 200 of the robot; (0, 2) is nearer.
    assert_eq!(path.relocate(config(480, 0, (0, 0), 200, false)), Some((0, 1)));
    assert_eq!(path.relocate(config(480, 0, (0, 2), 200, false)), Some((0, 2)));
    // The radius is strict.
    assert_eq!(path.relocate(config(500, 0, (0, 0), 200, false)), Some((0, 2)));
    assert_eq!(path.relocate(config(600, 400, (0, 0), 1, false)), Some((1, 1)));
}

#[test]
fn relocate_on_a_waypoint_finds_one_not_behind_it() {
    let path = two_segments();
    assert_eq!(path.relocate(config(600, 400, (0, 0), 50, false)), Some((1, 1)));
    assert_eq!(path.relocate(config(600, 400, (0, 0), 350, false)), Some((1, 0)));
    assert_eq!(path.relocate(config(600, 400, (0, 0), 450, false)), Some((0, 2)));
    assert_eq!(path.relocate(config(0, 0, (0, 0), 1, false)), Some((0, 0)));
}

#[test]
fn relocate_fails_where_nothing_is_within_the_radius() {
    let path = two_segments();
    assert_eq!(path.relocate(config(5000, 5000, (0, 0), 1000, false)), None);
    assert_eq!(path.relocate(config(5000, 5000, (0, 0), 1000, true)), None);
    assert_eq!(path.relocate(config(0, 0, (0, 0), 0, true)), None);
    let empty = Path::new(&[], 400, 0);
    assert_eq!(empty.relocate(config(0, 0, (0, 0), 1000, true)), None);
}

#[test]
fn relocate_goes_round_only_on_a_cyclic_path() {
    let path = two_segments();
    // The robot stands at the beginning; the search starts behind it.
    assert_eq!(path.relocate(config(0, 0, (0, 1), 100, false)), None);
    assert_eq!(path.relocate(config(0, 0, (0, 1), 100, true)), Some((0, 0)));
    assert_eq!(path.relocate(config(0, 0, (1, 1), 100, true)), Some((0, 0)));
    assert_eq!(path.relocate(config(300, 0, (1, 0), 100, true)), Some((0, 1)));
    // What lies ahead is found first, also on a cyclic path.
    assert_eq!(path.relocate(config(600, 50, (0, 1), 100, true)), Some((0, 2)));
    assert_eq!(path.relocate(config(600, 50, (1, 0), 100, true)), Some((1, 0)));
    // The cursor itself is not searched a second time.
    assert_eq!(path.relocate(config(600, 400, (1, 2), 50, true)), Some((1, 1)));
    assert_eq!(path.relocate(config(600, 400, (1, 2), 50, false)), None);
}

fn facing(x: i64, y: i64, degrees: f64) -> Pose {
    let (sin, cos) = degrees.to_radians().sin_cos();
    Pose::new(x, y, (cos * UNIT as f64).round() as i64, (sin * UNIT as f64).round() as i64).unwrap()
}

/// A drive with curves, a jump and a reversal.
fn winding() -> Vec<Pose> {
    let mut points = Vec::new();
    for i in 0..8 {
        points.push(facing(i * 250, 0, 0.0));
    }
    for i in 1..12 {
        let a = (i as f64) * 15.0;
        let (sin, cos) = a.to_radians().sin_cos();
        points.push(facing(1750 + (900.0 * sin) as i64, 900 - (900.0 * cos) as i64, a));
    }
    points.push(facing(5000, 5000, 10.0));
    points.push(facing(5300, 5050, 20.0));
    points.push(facing(5350, 5700, 200.0));
    points.push(facing(5600, 5200, 30.0));
    points.push(facing(5900, 5400, 220.0));
    points.push(facing(5600, 5200, 215.0));
    points
}

#[test]
fn every_segment_is_a_run_of_points_that_continue() {
    let points = winding();
    for tip_ignore in [0usize, 1, 3, 10, usize::MAX] {
        let path = Path::new(&points, 400, tip_ignore);
        assert!(path.0.len() > 1);
        for segment in &path.0 {
            assert!(!segment.is_empty());
            for pair in segment.windows(2) {
                assert!(pair[0].is_continued_by(400, &pair[1]));
            }
        }
        for pair in path.0.windows(2) {
            let last = pair[0].last().unwrap();
            assert!(!last.is_continued_by(400, &pair[1][0]));
        }
        // The first point opens the path and the last one ends it.
        assert_eq!(path.0[0][0], points[0]);
        assert_eq!(path.0.last().unwrap().last(), points.last());
    }
}

#[test]
fn without_looking_back_no_point_is_dropped() {
    let points = winding();
    let strict = Path::new(&points, 400, 0);
    assert_eq!(strict.flatten(), points);
    // A point that lies aside is dropped when the path is bridged across it.
    let mut kinked = points.clone();
    kinked.insert(3, facing(800, 300, 0.0));
    assert_eq!(Path::new(&kinked, 400, 0).flatten(), kinked);
    assert_eq!(Path::new(&kinked, 400, 1).flatten(), points);
    assert_eq!(Path::new(&kinked, 400, 1).0, Path::new(&points, 400, 1).0);
}
