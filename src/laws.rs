//! What holds of every relaxation run.
use vstd::prelude::*;

use crate::engine::{relaxation, step_limit, target_units, RelaxConfig};
use crate::geometry::{positions, sq, Point};
use crate::model::{
    clamp_step, dist_sq, lemma_clamp_step_bound, pair_force, run, scan, scan_row,
    scan_rows, scan_start, spaced_sq, step, visit, zeros, Pos, Scan,
};

verus! {

proof fn lemma_scan_row(pts: Seq<Pos>, target: int, a: int, b: int, s: Scan)
    requires
        0 <= a < pts.len(),
        a + 1 <= b <= pts.len(),
        s.0.len() == pts.len(),
        0 <= target,
    ensures
        scan_row(pts, target, a, b, s).0.len() == pts.len(),
        scan_row(pts, target, a, b, s).1 <= s.1,
        forall|j: int|
            a < j < b ==> scan_row(pts, target, a, b, s).1 <= #[trigger] dist_sq(pts[a], pts[j]),
        scan_row(pts, target, a, b, s).1 > sq(target) && s.0 == zeros(pts.len())
            ==> scan_row(pts, target, a, b, s).0 == zeros(pts.len()),
    decreases b - a,
{
    if b > a + 1 {
        lemma_scan_row(pts, target, a, b - 1, s);
        let prev = scan_row(pts, target, a, b - 1, s);
        let r = visit(prev, pts, target, a, b - 1);
        assert(r == scan_row(pts, target, a, b, s));
        if r.1 > sq(target) && s.0 == zeros(pts.len()) {
            assert(pair_force(pts[a], pts[b - 1], target) == (0int, 0int));
            assert(r.0 =~= zeros(pts.len()));
        }
    }
}

proof fn lemma_scan_rows(pts: Seq<Pos>, target: int, a: int)
    requires
        0 <= a <= pts.len(),
        0 <= target,
    ensures
        scan_rows(pts, target, a).0.len() == pts.len(),
        scan_rows(pts, target, a).1 <= 4 * sq(target),
        forall|i: int, j: int|
            0 <= i < a && i < j < pts.len() ==> scan_rows(pts, target, a).1 <= #[trigger] dist_sq(
                pts[i],
                pts[j],
            ),
        scan_rows(pts, target, a).1 > sq(target) ==> scan_rows(pts, target, a).0 == zeros(
            pts.len(),
        ),
    decreases a,
{
    if a > 0 {
        lemma_scan_rows(pts, target, a - 1);
        let prev = scan_rows(pts, target, a - 1);
        lemma_scan_row(pts, target, a - 1, pts.len() as int, prev);
    }
}

/// The minimum a scan reports bounds every pair from below, and where it
/// exceeds the squared target no pair pushed any point.
pub proof fn lemma_scan(pts: Seq<Pos>, target: int)
    requires
        0 <= target,
    ensures
        scan(pts, target).0.len() == pts.len(),
        spaced_sq(pts, scan(pts, target).1),
        scan(pts, target).1 > sq(target) ==> scan(pts, target).0 == zeros(pts.len()),
{
    lemma_scan_rows(pts, target, pts.len() as int);
    let m = scan(pts, target).1;
    assert forall|i: int, j: int| 0 <= i < j < pts.len() implies m <= #[trigger] dist_sq(
        pts[i],
        pts[j],
    ) by {}
}

/// An iteration keeps the number of points and their order.
pub proof fn lemma_step_shape(pts: Seq<Pos>, target: int, limit: int)
    ensures
        step(pts, target, limit).len() == pts.len(),
{
}

/// No point moves farther than the step limit in one iteration.
pub proof fn lemma_step_bound(pts: Seq<Pos>, target: int, limit: int)
    requires
        0 <= limit,
    ensures
        forall|i: int|
            0 <= i < pts.len() ==> sq(#[trigger] step(pts, target, limit)[i].0 - pts[i].0) + sq(
                step(pts, target, limit)[i].1 - pts[i].1,
            ) <= sq(limit),
{
    let acc = scan(pts, target).0;
    assert forall|i: int| 0 <= i < pts.len() implies sq(
        #[trigger] step(pts, target, limit)[i].0 - pts[i].0,
    ) + sq(step(pts, target, limit)[i].1 - pts[i].1) <= sq(limit) by {
        lemma_clamp_step_bound(acc[i], limit);
    }
}

/// Where no pair pushes, an iteration leaves every point where it was.
proof fn lemma_step_still(pts: Seq<Pos>, target: int, limit: int)
    requires
        0 <= limit,
        scan(pts, target).0 == zeros(pts.len()),
    ensures
        step(pts, target, limit) == pts,
{
    assert(sq(limit) >= 0) by (nonlinear_arith);
    assert(forall|i: int| 0 <= i < pts.len() ==> clamp_step(#[trigger] zeros(pts.len())[i], limit) == (0int, 0int));
    assert(step(pts, target, limit) =~= pts);
}

/// A run returns as many points as it was given.
pub proof fn lemma_run_shape(pts: Seq<Pos>, target: int, limit: int, budget: nat)
    ensures
        run(pts, target, limit, budget).0.len() == pts.len(),
    decreases budget,
{
    if budget > 1 {
        lemma_run_shape(step(pts, target, limit), target, limit, (budget - 1) as nat);
    }
}

/// A run performs at least one iteration and never more than its budget; it
/// ends short of the budget only on convergence.
pub proof fn lemma_run_iterations(pts: Seq<Pos>, target: int, limit: int, budget: nat)
    requires
        1 <= budget,
    ensures
        1 <= run(pts, target, limit, budget).2 <= budget,
        !run(pts, target, limit, budget).1 ==> run(pts, target, limit, budget).2 == budget,
    decreases budget,
{
    if budget > 1 {
        lemma_run_iterations(step(pts, target, limit), target, limit, (budget - 1) as nat);
    }
}

/// With fewer than two points there is no pair: the first iteration
/// converges and leaves the input as it is.
pub proof fn lemma_run_trivial(pts: Seq<Pos>, target: int, limit: int, budget: nat)
    requires
        pts.len() <= 1,
        0 <= target,
        0 <= limit,
    ensures
        run(pts, target, limit, budget) == (pts, true, 1int, 4 * sq(target)),
{
    assert(scan(pts, target) == scan_start(pts.len(), target)) by {
        if pts.len() == 1 {
            assert(scan_rows(pts, target, 1) == scan_row(pts, target, 0, 1, scan_rows(pts, target, 0)));
        }
    }
    assert(sq(target) >= 0) by (nonlinear_arith);
    lemma_step_still(pts, target, limit);
}

/// On convergence the last snapshot examined had every pair at least the
/// target apart, and the result is that snapshot after one iteration; where
/// its closest pair was strictly farther, nothing moved in that iteration and
/// the returned points keep that spacing.
pub proof fn lemma_run_spacing(pts: Seq<Pos>, target: int, limit: int, budget: nat)
    requires
        0 <= target,
        0 <= limit,
    ensures
        run(pts, target, limit, budget).1 ==> run(pts, target, limit, budget).3 >= sq(target),
        run(pts, target, limit, budget).1 && run(pts, target, limit, budget).3 > sq(target)
            ==> spaced_sq(run(pts, target, limit, budget).0, run(pts, target, limit, budget).3),
        run(pts, target, limit, budget).1 ==> exists|s: Seq<Pos>|
            spaced_sq(s, sq(target)) && #[trigger] step(s, target, limit) == run(
                pts,
                target,
                limit,
                budget,
            ).0,
    decreases budget,
{
    let m = scan(pts, target).1;
    if m >= sq(target) {
        lemma_scan(pts, target);
        assert(spaced_sq(pts, sq(target)));
        assert(step(pts, target, limit) == run(pts, target, limit, budget).0);
        if m > sq(target) {
            lemma_step_still(pts, target, limit);
        }
    } else if budget > 1 {
        lemma_run_spacing(step(pts, target, limit), target, limit, (budget - 1) as nat);
    }
}

/// A relaxation returns one point for each input point.
pub proof fn lemma_relaxation_shape(points: Seq<Point>, distance: u64, config: RelaxConfig)
    ensures
        relaxation(points, distance, config).0.len() == points.len(),
{
    lemma_run_shape(
        positions(points),
        target_units(distance),
        step_limit(distance, config),
        config.max_iterations as nat,
    );
}

/// No input and a single point come back unchanged, converged after one
/// iteration.
pub proof fn lemma_relaxation_trivial(points: Seq<Point>, distance: u64, config: RelaxConfig)
    requires
        points.len() <= 1,
        config.wf(),
    ensures
        relaxation(points, distance, config).0 == positions(points),
        relaxation(points, distance, config).1,
        relaxation(points, distance, config).2 == 1,
{
    assert(0 <= step_limit(distance, config)) by (nonlinear_arith)
        requires
            step_limit(distance, config) == target_units(distance) / (config.step_divisor as int),
            0 <= target_units(distance),
            1 <= config.step_divisor,
    ;
    lemma_run_trivial(
        positions(points),
        target_units(distance),
        step_limit(distance, config),
        config.max_iterations as nat,
    );
}

/// On convergence the returned points are one iteration away from a
/// snapshot whose pairs were all at least the target apart (so each lies
/// within one step of it), and where that snapshot's closest pair was
/// strictly farther than the target the returned points keep the spacing
/// exactly.
pub proof fn lemma_relaxation_spacing(points: Seq<Point>, distance: u64, config: RelaxConfig)
    requires
        config.wf(),
    ensures
        relaxation(points, distance, config).1 ==> relaxation(points, distance, config).3 >= sq(
            target_units(distance),
        ),
        relaxation(points, distance, config).1 && relaxation(points, distance, config).3 > sq(
            target_units(distance),
        ) ==> spaced_sq(
            relaxation(points, distance, config).0,
            relaxation(points, distance, config).3,
        ),
        relaxation(points, distance, config).1 ==> exists|s: Seq<(int, int)>|
            spaced_sq(s, sq(target_units(distance))) && #[trigger] step(
                s,
                target_units(distance),
                step_limit(distance, config),
            ) == relaxation(points, distance, config).0,
{
    assert(0 <= step_limit(distance, config)) by (nonlinear_arith)
        requires
            step_limit(distance, config) == target_units(distance) / (config.step_divisor as int),
            0 <= target_units(distance),
            1 <= config.step_divisor,
    ;
    lemma_run_spacing(
        positions(points),
        target_units(distance),
        step_limit(distance, config),
        config.max_iterations as nat,
    );
}

/// A relaxation performs at least one and at most the configured number of
/// iterations, and stops early only on convergence.
pub proof fn lemma_relaxation_iterations(points: Seq<Point>, distance: u64, config: RelaxConfig)
    requires
        config.wf(),
    ensures
        1 <= relaxation(points, distance, config).2 <= config.max_iterations,
        !relaxation(points, distance, config).1 ==> relaxation(points, distance, config).2
            == config.max_iterations,
{
    lemma_run_iterations(
        positions(points),
        target_units(distance),
        step_limit(distance, config),
        config.max_iterations as nat,
    );
}

/// The layout depends on the input positions, the distance and the
/// configuration alone: equal inputs give equal results.
pub proof fn lemma_relaxation_deterministic(
    a: Seq<Point>,
    b: Seq<Point>,
    distance: u64,
    config: RelaxConfig,
)
    requires
        positions(a) == positions(b),
    ensures
        relaxation(a, distance, config) == relaxation(b, distance, config),
{
}

} // verus!
