use vstd::prelude::*;

verus! {

/// Fixed-point units per whole unit of length: a coordinate of 65536 is 1.0.
pub const SCALE: i64 = 65536;

/// Largest magnitude accepted for an input coordinate, in fixed-point units.
pub const COORD_LIMIT: i64 = 1099511627776;

/// A position in the plane, both coordinates in fixed-point units.
#[derive(Clone, Copy, Debug, PartialEq, Eq, Structural)]
pub struct Point {
    pub x: i64,
    pub y: i64,
}

impl Point {
    pub fn new(x: i64, y: i64) -> (p: Point)
        ensures
            p.x == x,
            p.y == y,
    {
        Point { x, y }
    }

    /// The point at whole-unit coordinates `(x, y)`.
    pub fn from_units(x: i32, y: i32) -> (p: Point)
        ensures
            p.x == x * SCALE,
            p.y == y * SCALE,
    {
        Point { x: x as i64 * SCALE, y: y as i64 * SCALE }
    }

    pub open spec fn view(&self) -> (int, int) {
        (self.x as int, self.y as int)
    }
}

/// The mathematical positions of a sequence of points.
pub open spec fn positions(v: Seq<Point>) -> Seq<(int, int)> {
    v.map_values(|p: Point| (p.x as int, p.y as int))
}

pub open spec fn sq(v: int) -> int {
    v * v
}

/// `r` is the integer square root of `v`, rounded down.
pub open spec fn is_floor_sqrt(v: int, r: int) -> bool {
    0 <= r && r * r <= v < (r + 1) * (r + 1)
}

/// The integer square root of `v`, rounded down.
pub open spec fn floor_sqrt(v: int) -> int {
    choose|r: int| is_floor_sqrt(v, r)
}

/// The integer square root of `v`, rounded up.
pub open spec fn ceil_sqrt(v: int) -> int {
    let r = floor_sqrt(v);
    if r * r == v {
        r
    } else {
        r + 1
    }
}

proof fn lemma_square_monotone(a: int, b: int)
    requires
        0 <= a <= b,
    ensures
        a * a <= b * b,
{
    assert(a * a <= b * b) by (nonlinear_arith)
        requires
            0 <= a <= b,
    ;
}

/// The floor square root is unique, so any witness is the one `floor_sqrt` picks.
pub proof fn lemma_floor_sqrt_unique(v: int, r: int)
    requires
        is_floor_sqrt(v, r),
    ensures
        floor_sqrt(v) == r,
{
    let s = floor_sqrt(v);
    assert(is_floor_sqrt(v, s));
    if s < r {
        lemma_square_monotone(s + 1, r);
    } else if r < s {
        lemma_square_monotone(r + 1, s);
    }
}

/// Every non-negative integer has a floor square root.
pub proof fn lemma_floor_sqrt_exists(v: int)
    requires
        0 <= v,
    ensures
        is_floor_sqrt(v, floor_sqrt(v)),
    decreases v,
{
    if v == 0 {
        assert(is_floor_sqrt(0, 0));
    } else {
        lemma_floor_sqrt_exists(v - 1);
        let r = floor_sqrt(v - 1);
        if (r + 1) * (r + 1) <= v {
            assert((r + 1) * (r + 1) <= v < (r + 2) * (r + 2)) by (nonlinear_arith)
                requires
                    (r + 1) * (r + 1) <= v,
                    v - 1 < (r + 1) * (r + 1),
                    0 <= r,
            ;
            assert(is_floor_sqrt(v, r + 1));
        } else {
            assert(is_floor_sqrt(v, r));
        }
    }
}

/// The rounded-up square root of `v` squares to at least `v`.
pub proof fn lemma_ceil_sqrt(v: int)
    requires
        0 <= v,
    ensures
        0 <= ceil_sqrt(v),
        v <= ceil_sqrt(v) * ceil_sqrt(v),
        0 < v ==> 0 < ceil_sqrt(v),
{
    lemma_floor_sqrt_exists(v);
    let r = floor_sqrt(v);
    if r * r != v {
        assert(v < (r + 1) * (r + 1));
    }
    if 0 < v && ceil_sqrt(v) == 0 {
        assert(ceil_sqrt(v) * ceil_sqrt(v) == 0);
    }
}

/// Integer square root of `v`, rounded down.
pub fn floor_sqrt_u128(v: u128) -> (r: u128)
    requires
        v < 0x4000_0000_0000_0000_0000_0000_0000_0000,
    ensures
        is_floor_sqrt(v as int, r as int),
        r as int == floor_sqrt(v as int),
        r < 0x8000_0000_0000_0000,
{
    let mut lo: u128 = 0;
    let mut hi: u128 = 0x8000_0000_0000_0000;
    assert(hi * hi == 0x4000_0000_0000_0000_0000_0000_0000_0000u128 as int);
    while hi - lo > 1
        invariant
            lo < hi <= 0x8000_0000_0000_0000,
            lo * lo <= v,
            v < hi * hi,
        decreases hi - lo,
    {
        let mid: u128 = lo + (hi - lo) / 2;
        assert(mid * mid <= 0x4000_0000_0000_0000_0000_0000_0000_0000u128) by (nonlinear_arith)
            requires
                mid <= 0x8000_0000_0000_0000u128,
        ;
        if mid * mid <= v {
            lo = mid;
        } else {
            hi = mid;
        }
    }
    proof {
        lemma_floor_sqrt_unique(v as int, lo as int);
    }
    lo
}

/// Integer square root of `v`, rounded up.
pub fn ceil_sqrt_u128(v: u128) -> (r: u128)
    requires
        v < 0x4000_0000_0000_0000_0000_0000_0000_0000,
    ensures
        r as int == ceil_sqrt(v as int),
        v <= r * r,
        r <= 0x8000_0000_0000_0000,
{
    let f = floor_sqrt_u128(v);
    if f * f == v {
        f
    } else {
        f + 1
    }
}

} // verus!
