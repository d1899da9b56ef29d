use path_follower::geometry::{Pose, UNIT};
use path_follower::task::record::Sample;
use path_follower::track::{goto, Command};
use std::f64::consts::{FRAC_PI_2, PI};

fn at(x: i64, y: i64, degrees: f64) -> Pose {
    let (sin, cos) = degrees.to_radians().sin_cos();
    Pose::new(x, y, (cos * UNIT as f64).round() as i64, (sin * UNIT as f64).round() as i64).unwrap()
}

/// A spread of numbers from `low` to `high`, uneven so that no two grids
/// line up.
fn spread(low: f64, high: f64, n: usize, seed: u64) -> Vec<f64> {
    let mut state = seed.wrapping_mul(6364136223846793005).wrapping_add(1442695040888963407);
    (0..n)
        .map(|_| {
            state = state.wrapping_mul(6364136223846793005).wrapping_add(1442695040888963407);
            low + (high - low) * ((state >> 11) as f64 / (1u64 << 53) as f64)
        })
        .collect()
}

fn wrap(a: f64) -> f64 {
    let mut a = a % (2.0 * PI);
    if a > PI {
        a -= 2.0 * PI;
    }
    if a <= -PI {
        a += 2.0 * PI;
    }
    a
}

#[test]
fn the_light_disc_is_where_floating_point_puts_it() {
    let xs = spread(-1500.0, 1500.0, 40, 1);
    let ys = spread(-1500.0, 1500.0, 40, 2);
    let headings = spread(-180.0, 180.0, 40, 3);
    let mut inside = 0;
    for i in 0..40 {
        let pose = at(xs[i] as i64, ys[(i * 7) % 40] as i64, headings[i]);
        for j in 0..40 {
            let w = at(xs[j] as i64, ys[j] as i64, 0.0);
            let theta = headings[i].to_radians();
            let centre = (
                pose.position.x as f64 + 400.0 * theta.cos(),
                pose.position.y as f64 + 400.0 * theta.sin(),
            );
            let d = (w.position.x as f64 - centre.0).hypot(w.position.y as f64 - centre.1);
            if (d - 400.0).abs() < 0.5 {
                continue;
            }
            assert_eq!(pose.is_lighting(400, &w.position), d < 400.0);
            inside += (d < 400.0) as usize;
        }
    }
    assert!(inside > 20);
}

#[test]
fn angles_between_headings_are_what_floating_point_says() {
    let headings = spread(-180.0, 180.0, 60, 4);
    let others = spread(-180.0, 180.0, 60, 5);
    let mut near = 0;
    for a in &headings {
        for b in &others {
            let d = wrap((b - a).to_radians()).abs();
            let p = at(0, 0, *a);
            let q = at(0, 0, *b);
            if (d - PI / 3.0).abs() > 1e-3 {
                assert_eq!(p.heading.is_within_sixty_degrees(&q.heading), d < PI / 3.0);
            }
            if (d - PI / 16.0).abs() > 1e-3 {
                assert_eq!(p.heading.is_aligned_with(&q.heading), d < PI / 16.0);
                near += (d < PI / 16.0) as usize;
            }
            if d > 1e-3 && d < PI - 1e-3 {
                let left = wrap((b - a).to_radians()) > 0.0;
                assert_eq!(p.heading.heading_cross(&q.heading) > 0, left);
            }
        }
    }
    assert!(near > 50);
}

#[test]
fn the_way_onto_the_path_is_what_floating_point_says() {
    let xs = spread(-2500.0, 2500.0, 50, 6);
    let ys = spread(-2500.0, 2500.0, 50, 7);
    let headings = spread(-180.0, 180.0, 50, 8);
    let r = 400.0;
    let accept = 2.0 * r * (PI / 32.0).sin();
    let (mut backwards, mut forwards) = (0, 0);
    for i in 0..50 {
        let pose = at(xs[i] as i64 / 10, ys[i] as i64 / 10, headings[i]);
        for j in 0..50 {
            let target = at(xs[j] as i64 / 2, ys[(j * 3) % 50] as i64 / 2, headings[(j * 11) % 50]);
            let theta = headings[i].to_radians();
            let dx = target.position.x as f64 - (pose.position.x as f64 + r * theta.cos());
            let dy = target.position.y as f64 - (pose.position.y as f64 + r * theta.sin());
            let ahead = theta.cos() * dx + theta.sin() * dy;
            let left = -theta.sin() * dx + theta.cos() * dy;
            let distance = ahead.hypot(left);
            if (distance - accept).abs() < 1.0 {
                continue;
            }
            let found = goto(&pose, &target, 400);
            if distance < accept {
                continue;
            }
            let (speed, turn) = match found {
                Some(Command::Drive { speed, turn }) => {
                    (speed as f64 / 1000.0, (turn.y as f64).atan2(turn.x as f64))
                }
                other => panic!("{:?}", other),
            };
            let bearing = -left.atan2(ahead);
            if (bearing.abs() - 0.75 * PI).abs() < 1e-3 || (ahead + 1000.0).abs() < 1.0 {
                continue;
            }
            let reverse = ahead > -1000.0 && bearing.abs() > 0.75 * PI;
            let mut expected_speed = (distance / 1000.0).min(1.0);
            let mut expected_turn = bearing;
            if reverse {
                expected_speed = -expected_speed;
                expected_turn = bearing.signum() * PI - bearing;
                backwards += 1;
            } else {
                forwards += 1;
            }
            let expected_turn = expected_turn.clamp(-FRAC_PI_2, FRAC_PI_2);
            assert!((speed - expected_speed).abs() < 2e-3);
            assert!((turn - expected_turn).abs() < 1e-3);
        }
    }
    assert!(backwards > 20, "{}", backwards);
    assert!(forwards > 1000, "{}", forwards);
}

#[test]
fn new_poses_are_what_floating_point_says() {
    let xs = spread(-300.0, 300.0, 60, 9);
    let ys = spread(-300.0, 300.0, 60, 10);
    let thetas = spread(-7.0, 7.0, 60, 11);
    let (mut old, mut new) = (0, 0);
    for i in 0..60 {
        let last = Sample { x: 1000, y: -2000, theta: (thetas[i] * 1e6) as i64 };
        for j in 0..60 {
            let next = Sample {
                x: 1000 + xs[j] as i64,
                y: -2000 + ys[(j + i) % 60] as i64,
                theta: (thetas[(j * 7 + i) % 60] * 1e6) as i64,
            };
            let rho = ((next.x - last.x) as f64).hypot((next.y - last.y) as f64) / 1000.0;
            let theta = wrap((next.theta - last.theta) as f64 / 1e6).abs();
            let value = rho + theta / PI * 0.3;
            if (rho - 0.05).abs() < 1e-3 || (value - 0.2).abs() < 1e-3 {
                continue;
            }
            let expected = !(rho < 0.05 || value < 0.2);
            assert_eq!(last.precedes_new(&next), expected);
            if expected {
                new += 1;
            } else {
                old += 1;
            }
        }
    }
    assert!(old > 100 && new > 1000);
}
