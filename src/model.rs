//! The mathematical model of one relaxation run, over integer positions.
use vstd::prelude::*;

use crate::geometry::{ceil_sqrt, floor_sqrt, lemma_ceil_sqrt, sq};

verus! {

/// Gain of the inverse-square push: `SCALE³`, so that two points one whole
/// unit apart push each other by one whole unit.
pub const FORCE_GAIN: i64 = 281474976710656;

/// Saturation bound of a displacement accumulator component.
pub const ACC_CAP: i64 = 4611686018427387904;

/// A position or a displacement, in fixed-point units.
pub type Pos = (int, int);

/// Accumulated displacements, and the smallest squared pair distance seen.
pub type Scan = (Seq<Pos>, int);

pub open spec fn dist_sq(p: Pos, q: Pos) -> int {
    sq(q.0 - p.0) + sq(q.1 - p.1)
}

/// `c / n³` scaled by the force gain, rounded toward zero.
pub open spec fn push_component(c: int, n: int) -> int {
    if c >= 0 {
        c * FORCE_GAIN / n / n / n
    } else {
        -((-c) * FORCE_GAIN / n / n / n)
    }
}

/// The push that `q` receives from `p` (and, negated, `p` from `q`): the unit
/// vector from `p` to `q` over the squared distance, for pairs no farther apart
/// than the target. Coincident points are pushed apart along the x axis as if
/// one fixed-point unit separated them.
pub open spec fn pair_force(p: Pos, q: Pos, target: int) -> Pos {
    let d2 = dist_sq(p, q);
    if d2 > sq(target) {
        (0, 0)
    } else if d2 == 0 {
        (FORCE_GAIN as int, 0)
    } else {
        let n = floor_sqrt(d2);
        (push_component(q.0 - p.0, n), push_component(q.1 - p.1, n))
    }
}

pub open spec fn saturate(v: int) -> int {
    if v > ACC_CAP {
        ACC_CAP as int
    } else if v < -ACC_CAP {
        -ACC_CAP
    } else {
        v
    }
}

/// The scan state after the pair `(a, b)` has been taken into account.
pub open spec fn visit(s: Scan, pts: Seq<Pos>, target: int, a: int, b: int) -> Scan {
    let f = pair_force(pts[a], pts[b], target);
    let acc = s.0;
    let acc1 = acc.update(a, (saturate(acc[a].0 - f.0), saturate(acc[a].1 - f.1)));
    let acc2 = acc1.update(b, (saturate(acc1[b].0 + f.0), saturate(acc1[b].1 + f.1)));
    let d2 = dist_sq(pts[a], pts[b]);
    (acc2, if d2 < s.1 { d2 } else { s.1 })
}

pub open spec fn zeros(n: nat) -> Seq<Pos> {
    Seq::new(n, |i: int| (0int, 0int))
}

/// Before any pair: no displacement, and twice the target as minimum distance.
pub open spec fn scan_start(n: nat, target: int) -> Scan {
    (zeros(n), 4 * sq(target))
}

/// From `s`, visit the pairs `(a, j)` for `a < j < b`, in order of `j`.
pub open spec fn scan_row(pts: Seq<Pos>, target: int, a: int, b: int, s: Scan) -> Scan
    decreases b - a,
{
    if b <= a + 1 {
        s
    } else {
        visit(scan_row(pts, target, a, b - 1, s), pts, target, a, b - 1)
    }
}

/// The scan state once every pair whose first index is below `a` was visited.
pub open spec fn scan_rows(pts: Seq<Pos>, target: int, a: int) -> Scan
    decreases a,
{
    if a <= 0 {
        scan_start(pts.len(), target)
    } else {
        scan_row(pts, target, a - 1, pts.len() as int, scan_rows(pts, target, a - 1))
    }
}

/// Force accumulation over all unordered pairs.
pub open spec fn scan(pts: Seq<Pos>, target: int) -> Scan {
    scan_rows(pts, target, pts.len() as int)
}

/// `c * limit / len`, rounded toward zero.
pub open spec fn shrink(c: int, limit: int, len: int) -> int {
    if c >= 0 {
        c * limit / len
    } else {
        -((-c) * limit / len)
    }
}

/// A displacement, rescaled to length `limit` where it is longer.
pub open spec fn clamp_step(v: Pos, limit: int) -> Pos {
    let l2 = sq(v.0) + sq(v.1);
    if l2 <= sq(limit) {
        v
    } else {
        let len = ceil_sqrt(l2);
        (shrink(v.0, limit, len), shrink(v.1, limit, len))
    }
}

/// One relaxation iteration: every point moves by its clamped displacement,
/// all of them computed from the same snapshot.
pub open spec fn step(pts: Seq<Pos>, target: int, limit: int) -> Seq<Pos> {
    let acc = scan(pts, target).0;
    Seq::new(
        pts.len(),
        |i: int|
            (pts[i].0 + clamp_step(acc[i], limit).0, pts[i].1 + clamp_step(acc[i], limit).1),
    )
}

/// Iterate from `pts` with at most `budget` iterations. The result holds the
/// final positions, whether the spacing was met, the number of iterations
/// performed and the minimum squared distance seen in the last of them.
pub open spec fn run(pts: Seq<Pos>, target: int, limit: int, budget: nat) -> (
    Seq<Pos>,
    bool,
    int,
    int,
)
    decreases budget,
{
    let m = scan(pts, target).1;
    let next = step(pts, target, limit);
    if m >= sq(target) {
        (next, true, 1, m)
    } else if budget <= 1 {
        (next, false, 1, m)
    } else {
        let r = run(next, target, limit, (budget - 1) as nat);
        (r.0, r.1, r.2 + 1, r.3)
    }
}

/// Every pair of distinct points is at squared distance `m` or more.
pub open spec fn spaced_sq(pts: Seq<Pos>, m: int) -> bool {
    forall|i: int, j: int| 0 <= i < j < pts.len() ==> m <= #[trigger] dist_sq(pts[i], pts[j])
}

proof fn lemma_shrink_sq(c: int, limit: int, len: int)
    requires
        0 <= limit,
        0 < len,
    ensures
        sq(shrink(c, limit, len)) * sq(len) <= sq(c) * sq(limit),
{
    let a = if c >= 0 { c } else { -c };
    let q = a * limit / len;
    assert(0 <= q && q * len <= a * limit) by (nonlinear_arith)
        requires
            q == a * limit / len,
            0 <= a,
            0 <= limit,
            0 < len,
    ;
    assert(sq(q) * sq(len) <= sq(a) * sq(limit)) by (nonlinear_arith)
        requires
            0 <= q,
            q * len <= a * limit,
            0 < len,
    ;
    assert(sq(-q) == sq(q) && sq(-c) == sq(c)) by (nonlinear_arith);
}

/// A clamped displacement is never longer than the limit.
pub proof fn lemma_clamp_step_bound(v: Pos, limit: int)
    requires
        0 <= limit,
    ensures
        sq(clamp_step(v, limit).0) + sq(clamp_step(v, limit).1) <= sq(limit),
{
    let l2 = sq(v.0) + sq(v.1);
    if l2 > sq(limit) {
        assert(0 <= sq(v.0) && 0 <= sq(v.1) && 0 <= sq(limit)) by (nonlinear_arith);
        lemma_ceil_sqrt(l2);
        let len = ceil_sqrt(l2);
        lemma_shrink_sq(v.0, limit, len);
        lemma_shrink_sq(v.1, limit, len);
        let a = sq(shrink(v.0, limit, len));
        let b = sq(shrink(v.1, limit, len));
        let l = sq(len);
        let m = sq(limit);
        assert((a + b) * l == a * l + b * l) by (nonlinear_arith);
        assert((sq(v.0) + sq(v.1)) * m == sq(v.0) * m + sq(v.1) * m) by (nonlinear_arith);
        assert(l2 * m <= l * m) by (nonlinear_arith)
            requires
                l2 <= l,
                0 <= m,
        ;
        assert(a + b <= m) by (nonlinear_arith)
            requires
                (a + b) * l <= l * m,
                0 < l,
        ;
    }
}

} // verus!
