use path_follower::task::record::{Sample, Task};

fn sample(x: i64, y: i64, theta: i64) -> Sample {
    Sample { x, y, theta }
}

#[test]
fn the_first_pose_is_recorded() {
    let mut task = Task::new();
    assert_eq!(task.last, None);
    assert!(task.append(&sample(7, -3, 100)));
    assert_eq!(task.last, Some(sample(7, -3, 100)));
}

#[test]
fn a_pose_within_five_centimetres_is_not_recorded() {
    let mut task = Task::new();
    assert!(task.append(&sample(0, 0, 0)));
    assert!(!task.append(&sample(49, 0, 0)));
    assert!(!task.append(&sample(30, 39, 0)));
    assert!(!task.append(&sample(0, 0, 0)));
    // However far it has turned.
    assert!(!task.append(&sample(49, 0, 3_141_593)));
    assert!(!task.append(&sample(0, 0, -1_570_796)));
    assert_eq!(task.last, Some(sample(0, 0, 0)));
}

#[test]
fn poses_a_metre_apart_are_all_recorded() {
    let mut task = Task::new();
    for i in 0..20 {
        let s = sample(i * 1000, 0, 0);
        assert!(task.append(&s));
        assert_eq!(task.last, Some(s));
    }
    for i in 0..20 {
        assert!(task.append(&sample(19_000, (i + 1) * 1000, i * 700_000)));
    }
}

#[test]
fn distance_and_turn_add_up() {
    let mut task = Task::new();
    assert!(task.append(&sample(0, 0, 0)));
    // Straight on, a pose is new from 20 cm on.
    assert!(!task.append(&sample(199, 0, 0)));
    assert!(task.append(&sample(200, 0, 0)));
    // After a quarter turn, from 5 cm on: 50 + 300 / 2 = 200.
    assert!(!task.append(&sample(200, 49, 1_570_797)));
    assert!(task.append(&sample(200, 50, 1_570_797)));
    // After a sixth of a half turn, from 15 cm on: 150 + 300 / 6 = 200.
    let sixth = 1_570_797 + 523_599;
    assert!(!task.append(&sample(200, 199, sixth)));
    assert!(task.append(&sample(200, 201, sixth)));
    assert_eq!(task.last, Some(sample(200, 201, sixth)));
}

#[test]
fn the_turn_is_measured_the_short_way_round() {
    let a = sample(0, 0, 3_000_000);
    assert_eq!(a.turn_to(&sample(0, 0, -3_000_000)), 283_186);
    assert_eq!(sample(0, 0, -3_000_000).turn_to(&a), 283_186);
    assert_eq!(a.turn_to(&a), 0);
    assert_eq!(a.turn_to(&sample(0, 0, 3_000_000 + 6_283_186)), 0);
    assert_eq!(sample(0, 0, 0).turn_to(&sample(0, 0, 3_141_593)), 3_141_593);
    assert_eq!(sample(0, 0, 0).turn_to(&sample(0, 0, 3_141_594)), 3_141_592);
    assert_eq!(sample(0, 0, 100).turn_to(&sample(0, 0, -200)), 300);
    // A pose 15 cm on, facing nearly as before across the cut of the angle.
    assert!(!a.precedes_new(&sample(150, 0, -3_000_000)));
    assert!(a.precedes_new(&sample(180, 0, -3_000_000)));
}
