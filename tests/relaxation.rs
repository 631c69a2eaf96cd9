use fast_spacing::engine::{accumulate, limit_step, DISTANCE_LIMIT};
use fast_spacing::geometry::{ceil_sqrt_u128, floor_sqrt_u128};
use fast_spacing::{space, space_with, Outcome, Point, RelaxConfig, SCALE};

fn dist_sq(p: Point, q: Point) -> i128 {
    let dx = (q.x - p.x) as i128;
    let dy = (q.y - p.y) as i128;
    dx * dx + dy * dy
}

fn min_pair_sq(points: &[Point]) -> i128 {
    let mut best = i128::MAX;
    for i in 0..points.len() {
        for j in i + 1..points.len() {
            best = best.min(dist_sq(points[i], points[j]));
        }
    }
    best
}

#[test]
fn two_points_pushed_apart_symmetrically() {
    let input = vec![Point::from_units(0, 0), Point::from_units(1, 0)];
    let r = space_with(input, 10, RelaxConfig::standard());
    assert_eq!(r.outcome, Outcome::Converged);
    assert_eq!(r.points.len(), 2);
    let target = 10 * SCALE as i128;
    assert!(dist_sq(r.points[0], r.points[1]) >= target * target);
    // equal and opposite moves along the connecting axis
    assert_eq!(r.points[0].y, 0);
    assert_eq!(r.points[1].y, 0);
    assert_eq!(r.points[0].x + r.points[1].x, SCALE);
    assert!(r.points[0].x < 0);
}

#[test]
fn single_point_is_unchanged() {
    let r = space_with(vec![Point::from_units(0, 0)], 5, RelaxConfig::standard());
    assert_eq!(r.points, vec![Point::new(0, 0)]);
    assert_eq!(r.outcome, Outcome::Converged);
    assert_eq!(r.iterations, 1);
}

#[test]
fn empty_input_gives_empty_output() {
    let r = space_with(Vec::new(), 5, RelaxConfig::standard());
    assert!(r.points.is_empty());
    assert_eq!(r.outcome, Outcome::Converged);
    assert_eq!(r.iterations, 1);
    assert!(space(Vec::new(), 3).is_empty());
}

#[test]
fn spaced_grid_is_unchanged() {
    let mut input = Vec::new();
    for i in 0..4 {
        for j in 0..4 {
            input.push(Point::from_units(20 * i, 20 * j));
        }
    }
    let r = space_with(input.clone(), 10, RelaxConfig::standard());
    assert_eq!(r.points, input);
    assert_eq!(r.outcome, Outcome::Converged);
    assert_eq!(r.iterations, 1);
    assert_eq!(r.min_sq, (20 * SCALE as u128) * (20 * SCALE as u128));
}

#[test]
fn dense_cluster_returns_best_effort() {
    let mut input = Vec::new();
    for k in 0..50i64 {
        input.push(Point::new((k % 7) * SCALE / 7, (k / 7) * SCALE / 8));
    }
    let config = RelaxConfig { max_iterations: 200, step_divisor: 10 };
    let r = space_with(input, 1000, config);
    assert_eq!(r.points.len(), 50);
    assert_eq!(r.outcome, Outcome::Exhausted);
    assert_eq!(r.iterations, 200);
    let target = 1000 * SCALE as u128;
    assert!(r.min_sq < target * target);
}

#[test]
fn identical_calls_give_identical_layouts() {
    let input = vec![
        Point::new(0, 0),
        Point::new(SCALE / 3, SCALE / 5),
        Point::new(-SCALE / 2, SCALE),
        Point::new(SCALE, -SCALE / 7),
    ];
    let config = RelaxConfig { max_iterations: 500, step_divisor: 10 };
    let a = space_with(input.clone(), 4, config);
    let b = space_with(input, 4, config);
    assert_eq!(a.points, b.points);
    assert_eq!(a.outcome, b.outcome);
    assert_eq!(a.iterations, b.iterations);
    assert_eq!(a.min_sq, b.min_sq);
}

#[test]
fn no_step_exceeds_a_tenth_of_the_target() {
    let input = vec![Point::new(0, 0), Point::new(SCALE / 100, 0), Point::new(0, SCALE / 50)];
    let config = RelaxConfig { max_iterations: 1, step_divisor: 10 };
    let r = space_with(input.clone(), 10, config);
    assert_eq!(r.iterations, 1);
    assert_eq!(r.outcome, Outcome::Exhausted);
    let limit = (10 * SCALE / 10) as i128;
    for (p, q) in input.iter().zip(r.points.iter()) {
        assert!(dist_sq(*p, *q) <= limit * limit);
    }
    // the closest pair was pushed the full step
    assert!(dist_sq(input[0], r.points[0]) > (limit - 2) * (limit - 2));
}

#[test]
fn iteration_ceiling_is_respected() {
    let input = vec![Point::new(0, 0), Point::new(1, 0), Point::new(2, 0)];
    let config = RelaxConfig { max_iterations: 5, step_divisor: 10 };
    let r = space_with(input, 100, config);
    assert_eq!(r.outcome, Outcome::Exhausted);
    assert_eq!(r.iterations, 5);
}

#[test]
fn converged_layout_meets_spacing() {
    let input = vec![
        Point::new(0, 0),
        Point::new(SCALE, 0),
        Point::new(0, SCALE),
        Point::new(SCALE, SCALE),
        Point::new(SCALE / 2, SCALE / 2),
    ];
    let out = space(input, 3);
    assert_eq!(out.len(), 5);
    let target = 3 * SCALE as i128;
    assert!(min_pair_sq(&out) >= target * target);
}

#[test]
fn coincident_points_are_separated_along_x() {
    let input = vec![Point::new(0, 0), Point::new(0, 0)];
    let config = RelaxConfig { max_iterations: 1, step_divisor: 10 };
    let r = space_with(input, 2, config);
    assert_eq!(r.min_sq, 0);
    assert_eq!(r.points[0], Point::new(-2 * SCALE / 10, 0));
    assert_eq!(r.points[1], Point::new(2 * SCALE / 10, 0));
}

#[test]
fn standard_config_values() {
    let c = RelaxConfig::standard();
    assert_eq!(c.max_iterations, 20000);
    assert_eq!(c.step_divisor, 10);
    assert!(DISTANCE_LIMIT >= 1000);
}

#[test]
fn accumulate_one_unit_pair() {
    let points = vec![Point::from_units(0, 0), Point::from_units(1, 0)];
    let mut acc = vec![Point::new(7, 7); 2];
    let min_sq = accumulate(&points, 10 * SCALE, &mut acc);
    assert_eq!(acc, vec![Point::new(-SCALE, 0), Point::new(SCALE, 0)]);
    assert_eq!(min_sq, (SCALE as u128) * (SCALE as u128));
}

#[test]
fn accumulate_ignores_far_pairs() {
    let points = vec![Point::from_units(0, 0), Point::from_units(0, 11)];
    let mut acc = vec![Point::new(0, 0); 2];
    let min_sq = accumulate(&points, 10 * SCALE, &mut acc);
    assert_eq!(acc, vec![Point::new(0, 0), Point::new(0, 0)]);
    assert_eq!(min_sq, (11 * SCALE as u128) * (11 * SCALE as u128));
}

#[test]
fn limit_step_rescales_long_moves() {
    assert_eq!(limit_step(Point::new(300, 400), 50), Point::new(30, 40));
    assert_eq!(limit_step(Point::new(-300, 400), 50), Point::new(-30, 40));
    assert_eq!(limit_step(Point::new(30, -40), 50), Point::new(30, -40));
}

#[test]
fn integer_square_roots() {
    assert_eq!(floor_sqrt_u128(0), 0);
    assert_eq!(floor_sqrt_u128(24), 4);
    assert_eq!(floor_sqrt_u128(25), 5);
    assert_eq!(ceil_sqrt_u128(24), 5);
    assert_eq!(ceil_sqrt_u128(25), 5);
    assert_eq!(floor_sqrt_u128(1u128 << 100), 1u128 << 50);
}
