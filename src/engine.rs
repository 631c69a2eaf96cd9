//! The relaxation engine: force accumulation, clamped position update and
//! the convergence policy, each proved against the model.
use vstd::prelude::*;

use crate::geometry::{ceil_sqrt_u128, floor_sqrt_u128, positions, sq, Point};
use crate::model::{
    clamp_step, dist_sq, pair_force, push_component, saturate, scan, scan_row, scan_rows, step,
    visit, zeros, shrink, lemma_clamp_step_bound, run, ACC_CAP, FORCE_GAIN,
};
use crate::geometry::{COORD_LIMIT, SCALE};

verus! {

/// Largest magnitude a coordinate reaches during a run, in fixed-point units.
pub const POS_BOUND: i64 = 9007199254740992;

/// Largest target distance, in fixed-point units.
pub const TARGET_LIMIT: i64 = 4294967296;

/// Largest target distance, in whole units.
pub const DISTANCE_LIMIT: u64 = 65536;

/// Largest iteration ceiling a configuration may set.
pub const ITERATION_LIMIT: u32 = 1048576;

/// Both coordinates of `p` lie within `bound` of the origin.
pub open spec fn within(p: Point, bound: int) -> bool {
    -bound <= p.x <= bound && -bound <= p.y <= bound
}

pub open spec fn all_within(v: Seq<Point>, bound: int) -> bool {
    forall|i: int| 0 <= i < v.len() ==> within(#[trigger] v[i], bound)
}

fn magnitude(c: i64) -> (r: u128)
    ensures
        r as int == if c >= 0 { c as int } else { -c },
{
    if c >= 0 {
        c as u128
    } else {
        (-(c as i128)) as u128
    }
}

/// One component of the inverse-square push, for a component `c` of the
/// separation and a norm `n`.
fn push(c: i64, n: u128) -> (r: i64)
    requires
        1 <= n <= TARGET_LIMIT,
        -n <= c <= n,
    ensures
        r as int == push_component(c as int, n as int),
        -FORCE_GAIN <= r <= FORCE_GAIN,
{
    let a = magnitude(c);
    let g: u128 = FORCE_GAIN as u128;
    assert(a * g <= 0x1_0000_0000_0000_0000_0000) by (nonlinear_arith)
        requires
            a <= 0x1_0000_0000,
            g == 0x1_0000_0000_0000,
    ;
    let p: u128 = a * g;
    let q1: u128 = p / n;
    let q2: u128 = q1 / n;
    let q3: u128 = q2 / n;
    assert(q1 <= g) by (nonlinear_arith)
        requires
            p == a * g,
            q1 == p / n,
            a <= n,
            1 <= n,
    ;
    assert(q3 <= q1) by (nonlinear_arith)
        requires
            q2 == q1 / n,
            q3 == q2 / n,
            1 <= n,
    ;
    if c >= 0 {
        q3 as i64
    } else {
        -(q3 as i64)
    }
}

/// An integer whose square is below `(n + 1)²` lies within `n` of zero.
proof fn lemma_below_root(c: int, n: int)
    requires
        c * c < (n + 1) * (n + 1),
        0 <= n,
    ensures
        -n <= c <= n,
{
    if c > n {
        lemma_square_le(n + 1, c);
    } else if c < -n {
        lemma_square_le(n + 1, -c);
        assert((-c) * (-c) == c * c) by (nonlinear_arith);
    }
}

proof fn lemma_component_bound(c: int, d: int, t: int)
    requires
        sq(c) + sq(d) <= sq(t),
        0 <= t,
    ensures
        -t <= c <= t,
{
    assert(sq(d) >= 0) by (nonlinear_arith);
    if c > t {
        assert(sq(c) > sq(t)) by (nonlinear_arith)
            requires
                c > t,
                t >= 0,
        ;
    } else if c < -t {
        assert(sq(c) > sq(t)) by (nonlinear_arith)
            requires
                c < -t,
                t >= 0,
        ;
    }
}

/// The push between `p` and `q` and their squared distance.
fn pair_push(p: Point, q: Point, target: i64) -> (r: (Point, u128))
    requires
        within(p, POS_BOUND as int),
        within(q, POS_BOUND as int),
        0 <= target <= TARGET_LIMIT,
    ensures
        r.0@ == pair_force(p@, q@, target as int),
        r.1 as int == dist_sq(p@, q@),
        within(r.0, FORCE_GAIN as int),
        r.1 < 0x4000_0000_0000_0000_0000_0000_0000,
{
    let dx: i64 = q.x - p.x;
    let dy: i64 = q.y - p.y;
    let ux = magnitude(dx);
    let uy = magnitude(dy);
    proof {
        lemma_square_le(ux as int, 0x40_0000_0000_0000);
        lemma_square_le(uy as int, 0x40_0000_0000_0000);
    }
    let d2: u128 = ux * ux + uy * uy;
    let ut: u128 = target as u128;
    assert(ut * ut <= 0x1_0000_0000_0000_0000) by (nonlinear_arith)
        requires
            ut <= 0x1_0000_0000,
    ;
    let t2: u128 = ut * ut;
    proof {
        assert(sq(dx as int) == ux * ux) by (nonlinear_arith)
            requires
                ux as int == if dx >= 0 { dx as int } else { -dx },
        ;
        assert(sq(dy as int) == uy * uy) by (nonlinear_arith)
            requires
                uy as int == if dy >= 0 { dy as int } else { -dy },
        ;
    }
    if d2 > t2 {
        (Point { x: 0, y: 0 }, d2)
    } else if d2 == 0 {
        (Point { x: FORCE_GAIN, y: 0 }, d2)
    } else {
        let n = floor_sqrt_u128(d2);
        proof {
            assert(sq(dx as int) >= 0 && sq(dy as int) >= 0) by (nonlinear_arith);
            lemma_below_root(dx as int, n as int);
            lemma_below_root(dy as int, n as int);
            lemma_component_bound(n as int, 0, target as int);
            assert(n >= 1) by (nonlinear_arith)
                requires
                    d2 < (n + 1) * (n + 1),
                    d2 >= 1,
                    n >= 0,
            ;
        }
        (Point { x: push(dx, n), y: push(dy, n) }, d2)
    }
}

proof fn lemma_square_le(a: int, b: int)
    requires
        0 <= a <= b,
    ensures
        a * a <= b * b,
{
    assert(a * a <= b * b) by (nonlinear_arith)
        requires
            0 <= a <= b,
    ;
}

fn saturate_i128(v: i128) -> (r: i64)
    ensures
        r as int == saturate(v as int),
        -ACC_CAP <= r <= ACC_CAP,
{
    if v > ACC_CAP as i128 {
        ACC_CAP
    } else if v < -(ACC_CAP as i128) {
        -ACC_CAP
    } else {
        v as i64
    }
}

/// Fills `acc` with the displacement of every point from the pairs of the
/// snapshot `points`, and returns the smallest squared pair distance (four
/// times the squared target where there is no pair).
pub fn accumulate(points: &Vec<Point>, target: i64, acc: &mut Vec<Point>) -> (min_sq: u128)
    requires
        old(acc).len() == points.len(),
        all_within(points@, POS_BOUND as int),
        0 <= target <= TARGET_LIMIT,
    ensures
        final(acc).len() == points.len(),
        positions(final(acc)@) == scan(positions(points@), target as int).0,
        min_sq as int == scan(positions(points@), target as int).1,
        all_within(final(acc)@, ACC_CAP as int),
{
    let n = points.len();
    let ghost pos = positions(points@);
    let mut i: usize = 0;
    while i < n
        invariant
            acc.len() == n,
            n == points.len(),
            i <= n,
            forall|k: int| 0 <= k < i ==> acc@[k] == (Point { x: 0, y: 0 }),
        decreases n - i,
    {
        acc.set(i, Point { x: 0, y: 0 });
        i += 1;
    }
    assert(positions(acc@) =~= zeros(n as nat));
    assert(all_within(acc@, ACC_CAP as int));
    let ut: u128 = target as u128;
    assert(4 * ut * ut <= 0x4_0000_0000_0000_0000) by (nonlinear_arith)
        requires
            ut <= 0x1_0000_0000,
    ;
    let mut min_sq: u128 = 4 * ut * ut;
    assert(min_sq as int == 4 * sq(target as int)) by (nonlinear_arith)
        requires
            min_sq == 4 * ut * ut,
            ut == target,
    ;
    let mut a: usize = 0;
    while a < n
        invariant
            acc.len() == n,
            n == points.len(),
            pos == positions(points@),
            a <= n,
            all_within(points@, POS_BOUND as int),
            0 <= target <= TARGET_LIMIT,
            positions(acc@) == scan_rows(pos, target as int, a as int).0,
            min_sq as int == scan_rows(pos, target as int, a as int).1,
            all_within(acc@, ACC_CAP as int),
        decreases n - a,
    {
        let ghost row_start = scan_rows(pos, target as int, a as int);
        let mut b: usize = a + 1;
        while b < n
            invariant
                acc.len() == n,
                n == points.len(),
                pos == positions(points@),
                a < n,
                a + 1 <= b <= n,
                all_within(points@, POS_BOUND as int),
                0 <= target <= TARGET_LIMIT,
                positions(acc@) == scan_row(pos, target as int, a as int, b as int, row_start).0,
                min_sq as int == scan_row(pos, target as int, a as int, b as int, row_start).1,
                all_within(acc@, ACC_CAP as int),
            decreases n - b,
        {
            let ghost before = scan_row(pos, target as int, a as int, b as int, row_start);
            let (f, d2) = pair_push(points[a], points[b], target);
            let pa = acc[a];
            acc.set(
                a,
                Point {
                    x: saturate_i128(pa.x as i128 - f.x as i128),
                    y: saturate_i128(pa.y as i128 - f.y as i128),
                },
            );
            let pb = acc[b];
            acc.set(
                b,
                Point {
                    x: saturate_i128(pb.x as i128 + f.x as i128),
                    y: saturate_i128(pb.y as i128 + f.y as i128),
                },
            );
            if d2 < min_sq {
                min_sq = d2;
            }
            proof {
                let after = visit(before, pos, target as int, a as int, b as int);
                assert(pos[a as int] == points@[a as int]@);
                assert(pos[b as int] == points@[b as int]@);
                assert(positions(acc@) =~= after.0);
            }
            b += 1;
        }
        a += 1;
    }
    min_sq
}

/// `c * limit / len`, rounded toward zero, for `|c| <= len`.
fn shrink_component(c: i64, limit: i64, len: u128) -> (r: i64)
    requires
        -ACC_CAP <= c <= ACC_CAP,
        0 <= limit <= TARGET_LIMIT,
        1 <= len,
        c * c <= len * len,
    ensures
        r == shrink(c as int, limit as int, len as int),
{
    let a = magnitude(c);
    let l: u128 = limit as u128;
    assert(a * l <= 0x4000_0000_0000_0000_0000_0000) by (nonlinear_arith)
        requires
            a <= 0x4000_0000_0000_0000,
            l <= 0x1_0000_0000,
    ;
    assert(a * a == c * c) by (nonlinear_arith)
        requires
            a as int == if c >= 0 { c as int } else { -c },
    ;
    assert(a <= len) by (nonlinear_arith)
        requires
            a * a <= len * len,
            1 <= len,
    ;
    let p: u128 = a * l;
    let q: u128 = p / len;
    assert(q <= l) by (nonlinear_arith)
        requires
            p == a * l,
            q == p / len,
            a <= len,
            1 <= len,
    ;
    if c >= 0 {
        q as i64
    } else {
        -(q as i64)
    }
}

/// The displacement `v`, rescaled to length `limit` where it is longer.
pub fn limit_step(v: Point, limit: i64) -> (r: Point)
    requires
        within(v, ACC_CAP as int),
        0 <= limit <= TARGET_LIMIT,
    ensures
        r@ == clamp_step(v@, limit as int),
        sq(r.x as int) + sq(r.y as int) <= sq(limit as int),
        within(r, limit as int),
{
    let ax = magnitude(v.x);
    let ay = magnitude(v.y);
    proof {
        lemma_square_le(ax as int, 0x4000_0000_0000_0000);
        lemma_square_le(ay as int, 0x4000_0000_0000_0000);
        lemma_square_le(limit as int, TARGET_LIMIT as int);
        assert(sq(v.x as int) == ax * ax) by (nonlinear_arith)
            requires
                ax as int == if v.x >= 0 { v.x as int } else { -v.x },
        ;
        assert(sq(v.y as int) == ay * ay) by (nonlinear_arith)
            requires
                ay as int == if v.y >= 0 { v.y as int } else { -v.y },
        ;
        lemma_clamp_step_bound(v@, limit as int);
    }
    let l2: u128 = ax * ax + ay * ay;
    let lim: u128 = limit as u128;
    let r = if l2 <= lim * lim {
        v
    } else {
        let len = ceil_sqrt_u128(l2);
        proof {
            assert(0 <= ay * ay) by (nonlinear_arith);
            assert(0 <= ax * ax) by (nonlinear_arith);
        }
        Point {
            x: shrink_component(v.x, limit, len),
            y: shrink_component(v.y, limit, len),
        }
    };
    proof {
        lemma_component_bound(r.x as int, r.y as int, limit as int);
        lemma_component_bound(r.y as int, r.x as int, limit as int);
    }
    r
}

/// One iteration: accumulate displacements from the current snapshot, then
/// move every point by its clamped displacement. Returns the smallest squared
/// pair distance of the snapshot.
fn advance(
    points: &mut Vec<Point>,
    acc: &mut Vec<Point>,
    target: i64,
    limit: i64,
    Ghost(bound): Ghost<int>,
) -> (min_sq: u128)
    requires
        old(acc).len() == old(points).len(),
        all_within(old(points)@, bound),
        0 <= bound,
        bound + limit <= POS_BOUND,
        0 <= target <= TARGET_LIMIT,
        0 <= limit <= TARGET_LIMIT,
    ensures
        final(points).len() == old(points).len(),
        final(acc).len() == old(points).len(),
        positions(final(points)@) == step(positions(old(points)@), target as int, limit as int),
        min_sq as int == scan(positions(old(points)@), target as int).1,
        all_within(final(points)@, bound + limit),
{
    let min_sq = accumulate(points, target, acc);
    let ghost snap = points@;
    let ghost moved = step(positions(snap), target as int, limit as int);
    let n = points.len();
    let mut i: usize = 0;
    while i < n
        invariant
            points.len() == n,
            acc.len() == n,
            snap.len() == n,
            i <= n,
            0 <= limit <= TARGET_LIMIT,
            bound + limit <= POS_BOUND,
            all_within(snap, bound),
            all_within(acc@, ACC_CAP as int),
            moved == step(positions(snap), target as int, limit as int),
            positions(acc@) == scan(positions(snap), target as int).0,
            forall|k: int| 0 <= k < i ==> #[trigger] points@[k]@ == moved[k],
            forall|k: int| 0 <= k < i ==> within(#[trigger] points@[k], bound + limit),
            forall|k: int| i <= k < n ==> #[trigger] points@[k] == snap[k],
        decreases n - i,
    {
        let d = limit_step(acc[i], limit);
        let p = points[i];
        assert(within(snap[i as int], bound));
        points.set(i, Point { x: p.x + d.x, y: p.y + d.y });
        i += 1;
    }
    assert forall|k: int| 0 <= k < n implies positions(points@)[k] == moved[k] by {
        assert(points@[k]@ == moved[k]);
    }
    assert(positions(points@) =~= moved);
    min_sq
}

/// How a run ended.
#[derive(Clone, Copy, Debug, PartialEq, Eq, Structural)]
pub enum Outcome {
    /// The minimum pair distance met the target.
    Converged,
    /// The iteration ceiling was reached first; the layout is a best effort.
    Exhausted,
}

/// Tunable constants of the relaxation.
#[derive(Clone, Copy, Debug, PartialEq, Eq, Structural)]
pub struct RelaxConfig {
    /// The most iterations a run performs.
    pub max_iterations: u32,
    /// A step is at most the target distance divided by this.
    pub step_divisor: u32,
}

impl RelaxConfig {
    pub open spec fn wf(&self) -> bool {
        1 <= self.max_iterations <= ITERATION_LIMIT && 1 <= self.step_divisor
    }

    /// The standard configuration: 20000 iterations, steps of a tenth of the
    /// target distance.
    pub fn standard() -> (c: RelaxConfig)
        ensures
            c.max_iterations == 20000,
            c.step_divisor == 10,
            c.wf(),
    {
        RelaxConfig { max_iterations: 20000, step_divisor: 10 }
    }
}

/// The result of a run.
#[derive(Debug)]
pub struct Layout {
    /// The relaxed positions, index for index with the input.
    pub points: Vec<Point>,
    pub outcome: Outcome,
    /// Iterations performed.
    pub iterations: u32,
    /// Smallest squared pair distance seen in the last iteration, in squared
    /// fixed-point units.
    pub min_sq: u128,
}

/// The target distance in fixed-point units.
pub open spec fn target_units(distance: u64) -> int {
    distance * SCALE
}

/// The longest step a point may take in one iteration.
pub open spec fn step_limit(distance: u64, config: RelaxConfig) -> int {
    target_units(distance) / (config.step_divisor as int)
}

/// What a run from `points` ends with.
pub open spec fn relaxation(points: Seq<Point>, distance: u64, config: RelaxConfig) -> (
    Seq<(int, int)>,
    bool,
    int,
    int,
) {
    run(
        positions(points),
        target_units(distance),
        step_limit(distance, config),
        config.max_iterations as nat,
    )
}

/// Spread `points` apart until no two are closer than `distance` whole units,
/// or until the configured iteration ceiling is reached.
pub fn space_with(points: Vec<Point>, distance: u64, config: RelaxConfig) -> (r: Layout)
    requires
        config.wf(),
        1 <= distance <= DISTANCE_LIMIT,
        all_within(points@, COORD_LIMIT as int),
    ensures
        positions(r.points@) == relaxation(points@, distance, config).0,
        (r.outcome == Outcome::Converged) == relaxation(points@, distance, config).1,
        r.iterations as int == relaxation(points@, distance, config).2,
        r.min_sq as int == relaxation(points@, distance, config).3,
{
    let target: i64 = distance as i64 * SCALE;
    let limit: i64 = target / config.step_divisor as i64;
    assert(0 <= limit <= target) by (nonlinear_arith)
        requires
            limit == target / (config.step_divisor as i64),
            1 <= config.step_divisor,
            0 <= target,
    ;
    let ut: u128 = target as u128;
    proof {
        lemma_square_le(ut as int, TARGET_LIMIT as int);
    }
    let t2: u128 = ut * ut;
    assert(t2 == sq(target as int));
    let ghost t = target as int;
    let ghost l = limit as int;
    let ghost budget = config.max_iterations as nat;
    let ghost goal = relaxation(points@, distance, config);
    let n = points.len();
    let mut pts = points;
    let mut acc: Vec<Point> = Vec::new();
    while acc.len() < n
        invariant
            acc.len() <= n,
        decreases n - acc.len(),
    {
        acc.push(Point { x: 0, y: 0 });
    }
    let mut done: u32 = 0;
    loop
        invariant
            pts.len() == n,
            acc.len() == n,
            config.wf(),
            done < config.max_iterations,
            0 <= l <= t <= TARGET_LIMIT,
            t == target,
            l == limit,
            t2 == sq(t),
            budget == config.max_iterations,
            goal == relaxation(points@, distance, config),
            all_within(pts@, COORD_LIMIT + done * l),
            goal.0 == run(positions(pts@), t, l, (budget - done) as nat).0,
            goal.1 == run(positions(pts@), t, l, (budget - done) as nat).1,
            goal.2 == run(positions(pts@), t, l, (budget - done) as nat).2 + done,
            goal.3 == run(positions(pts@), t, l, (budget - done) as nat).3,
        decreases config.max_iterations - done,
    {
        assert(done * l <= 0x10_0000_0000_0000) by (nonlinear_arith)
            requires
                0 <= done <= 0x10_0000,
                0 <= l <= 0x1_0000_0000,
        ;
        let ghost before = positions(pts@);
        let ghost rb = run(before, t, l, (budget - done) as nat);
        let min_sq = advance(&mut pts, &mut acc, target, limit, Ghost(COORD_LIMIT + done * l));
        done += 1;
        assert(COORD_LIMIT + (done - 1) * l + l == COORD_LIMIT + done * l) by (nonlinear_arith);
        proof {
            let m = scan(before, t).1;
            assert(m == min_sq);
            if m >= sq(t) {
                assert(rb.0 == step(before, t, l));
                assert(rb.1);
            }
        }
        if min_sq >= t2 {
            return Layout { points: pts, outcome: Outcome::Converged, iterations: done, min_sq };
        }
        if done >= config.max_iterations {
            return Layout { points: pts, outcome: Outcome::Exhausted, iterations: done, min_sq };
        }
    }
}

/// Spread `points` apart with the standard configuration.
pub fn space(points: Vec<Point>, distance: u64) -> (r: Vec<Point>)
    requires
        1 <= distance <= DISTANCE_LIMIT,
        all_within(points@, COORD_LIMIT as int),
    ensures
        positions(r@) == relaxation(points@, distance, (RelaxConfig { max_iterations: 20000, step_divisor: 10 })).0,
{
    space_with(points, distance, RelaxConfig::standard()).points
}

} // verus!

