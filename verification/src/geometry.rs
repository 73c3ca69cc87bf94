//! Integer 2D geometry: points, squared distances, the floor of a square
//! root, and the exact truncated-step movement rules of the world model.
//!
//! Every coordinate is an integer. A move of `dist` units toward a target
//! (or along a compass direction) lands on the real-valued destination
//! truncated toward zero, coordinate by coordinate. The spec functions here
//! state that truncation exactly, over integers alone: the floor of
//! `t / sqrt(d2)` is recovered from the integer square root of `t*t / d2`.
use vstd::prelude::*;
use vstd::arithmetic::div_mod::lemma_fundamental_div_mod;

verus! {

/// A position on (or near) the playfield. Plain integer coordinates.
#[derive(Copy, Clone, PartialEq, Eq, Structural, Debug)]
pub struct Point {
    pub x: i32,
    pub y: i32,
}

/// Coordinates this far from the origin (in absolute value) are accepted by
/// the geometry; the bound keeps every intermediate product inside the
/// machine integer types. Real play stays within [0, 16000] x [0, 9000].
pub const COORD_LIMIT: i32 = 100_000_000;

/// Longest step a single move may take; bounds the drift of one move.
pub const STEP_LIMIT: u32 = 1_000_000;

/// The squared Euclidean distance between two points, as a mathematical int.
pub open spec fn dist2(a: Point, b: Point) -> int {
    (a.x - b.x) * (a.x - b.x) + (a.y - b.y) * (a.y - b.y)
}

/// The floor of the square root of `n`: the greatest `r` with `r * r <= n`.
pub open spec fn floor_sqrt(n: nat) -> nat
    decreases n,
{
    if n == 0 {
        0
    } else {
        let p = floor_sqrt((n - 1) as nat);
        if (p + 1) * (p + 1) <= n {
            p + 1
        } else {
            p
        }
    }
}

/// `floor_sqrt(n)` is the unique natural bracketing `n` between consecutive squares.
pub proof fn lemma_floor_sqrt_bounds(n: nat)
    ensures
        floor_sqrt(n) * floor_sqrt(n) <= n,
        n < (floor_sqrt(n) + 1) * (floor_sqrt(n) + 1),
    decreases n,
{
    if n == 0 {
        assert(floor_sqrt(0) == 0);
        assert(0 < (0 + 1) * (0 + 1)) by (nonlinear_arith);
    } else {
        lemma_floor_sqrt_bounds((n - 1) as nat);
        let p = floor_sqrt((n - 1) as nat);
        assert(p * p <= n - 1);
        assert(n - 1 < (p + 1) * (p + 1));
        if (p + 1) * (p + 1) <= n {
            assert(floor_sqrt(n) == p + 1);
            assert(n < ((p + 1) + 1) * ((p + 1) + 1)) by (nonlinear_arith)
                requires
                    n - 1 < (p + 1) * (p + 1),
            ;
        } else {
            assert(floor_sqrt(n) == p);
        }
    }
}

/// Any `r` bracketing `n` between `r*r` and `(r+1)*(r+1)` is `floor_sqrt(n)`.
pub proof fn lemma_floor_sqrt_unique(n: nat, r: nat)
    requires
        r * r <= n,
        n < (r + 1) * (r + 1),
    ensures
        r == floor_sqrt(n),
{
    lemma_floor_sqrt_bounds(n);
    let f = floor_sqrt(n);
    if r < f {
        assert((r + 1) * (r + 1) <= f * f) by (nonlinear_arith)
            requires r + 1 <= f,
        ;
    }
    if f < r {
        assert((f + 1) * (f + 1) <= r * r) by (nonlinear_arith)
            requires f + 1 <= r,
        ;
    }
}

/// The greatest `r: u128` with `r * r <= n`, by binary search.
pub fn isqrt(n: u128) -> (r: u128)
    ensures
        r == floor_sqrt(n as nat),
{
    let mut lo: u128 = 0;
    let mut hi: u128 = 1u128 << 64;
    proof {
        assert((1u128 << 64) == 0x1_0000_0000_0000_0000u128) by (bit_vector);
        assert(n < (1u128 << 64) * (1u128 << 64)) by (nonlinear_arith)
            requires
                n <= u128::MAX,
                (1u128 << 64) == 0x1_0000_0000_0000_0000u128,
        ;
    }
    while lo + 1 < hi
        invariant
            lo < hi,
            hi <= 1u128 << 64,
            lo * lo <= n,
            n < hi * hi,
        decreases hi - lo,
    {
        let mid = lo + (hi - lo) / 2;
        proof {
            assert((1u128 << 64) == 0x1_0000_0000_0000_0000u128) by (bit_vector);
            assert(mid * mid <= u128::MAX) by (nonlinear_arith)
                requires
                    mid < 0x1_0000_0000_0000_0000u128,
            ;
        }
        if mid * mid <= n {
            lo = mid;
        } else {
            hi = mid;
        }
    }
    proof {
        assert(n < (lo + 1) * (lo + 1)) by (nonlinear_arith)
            requires
                n < hi * hi,
                lo + 1 >= hi,
                lo < hi,
        ;
        lemma_floor_sqrt_unique(n as nat, lo as nat);
    }
    lo
}

/// The floor of `t / sqrt(d2)` (for `d2 >= 1`), written with integers alone:
/// for `t >= 0` it is `floor_sqrt(t*t / d2)`; for `t < 0` it is minus the
/// ceiling of `|t| / sqrt(d2)`, which exceeds the floor by one exactly when
/// `|t|` is not a whole multiple of `sqrt(d2)`.
pub open spec fn fdiv_sqrt(t: int, d2: int) -> int
    recommends
        d2 >= 1,
{
    let u = if t >= 0 { t } else { -t };
    let k = floor_sqrt(((u * u) / d2) as nat) as int;
    if t >= 0 {
        k
    } else if k * k * d2 == u * u {
        -k
    } else {
        -k - 1
    }
}

/// The ceiling of `t / sqrt(d2)` (for `d2 >= 1`).
pub open spec fn cdiv_sqrt(t: int, d2: int) -> int
    recommends
        d2 >= 1,
{
    -fdiv_sqrt(-t, d2)
}

/// `x + t / sqrt(d2)`, truncated toward zero: the floor of the sum when the
/// sum is nonnegative (the floor of a nonnegative real is its truncation),
/// and the ceiling when it is negative.
pub open spec fn stepped_coord(x: int, t: int, d2: int) -> int
    recommends
        d2 >= 1,
{
    let f = x + fdiv_sqrt(t, d2);
    if f >= 0 {
        f
    } else {
        x + cdiv_sqrt(t, d2)
    }
}

/// For `t >= 0`, `fdiv_sqrt(t, d2)` is the greatest `k` with `k*k*d2 <= t*t`:
/// exactly the floor of `t / sqrt(d2)`.
pub proof fn lemma_fdiv_sqrt_nonneg(t: int, d2: int)
    requires
        t >= 0,
        d2 >= 1,
    ensures
        0 <= fdiv_sqrt(t, d2),
        fdiv_sqrt(t, d2) * fdiv_sqrt(t, d2) * d2 <= t * t,
        t * t < (fdiv_sqrt(t, d2) + 1) * (fdiv_sqrt(t, d2) + 1) * d2,
{
    let q = (t * t) / d2;
    assert(t * t >= 0) by (nonlinear_arith);
    lemma_fundamental_div_mod(t * t, d2);
    assert(q >= 0) by (nonlinear_arith)
        requires
            t * t == d2 * q + (t * t) % d2,
            0 <= (t * t) % d2 < d2,
            t * t >= 0,
            d2 >= 1,
    ;
    lemma_floor_sqrt_bounds(q as nat);
    let k = floor_sqrt(q as nat) as int;
    assert(k * k * d2 <= t * t && t * t < (k + 1) * (k + 1) * d2) by (nonlinear_arith)
        requires
            k * k <= q,
            q < (k + 1) * (k + 1),
            t * t == d2 * q + (t * t) % d2,
            0 <= (t * t) % d2 < d2,
            d2 >= 1,
    ;
}

/// A step numerator bounded by `k` direction lengths moves the floor of the
/// quotient by at most `k` (plus one for the ceiling adjustment below zero).
pub proof fn lemma_fdiv_sqrt_small(t: int, d2: int, k: int)
    requires
        d2 >= 1,
        k >= 0,
        t * t <= k * k * d2,
    ensures
        -k - 1 <= fdiv_sqrt(t, d2) <= k,
{
    let u = if t >= 0 { t } else { -t };
    assert(u * u == t * t) by (nonlinear_arith)
        requires
            u == if t >= 0 { t } else { -t },
    ;
    lemma_fdiv_sqrt_nonneg(u, d2);
    let kk = fdiv_sqrt(u, d2);
    assert(kk <= k) by (nonlinear_arith)
        requires
            kk * kk * d2 <= u * u,
            u * u <= k * k * d2,
            d2 >= 1,
            kk >= 0,
            k >= 0,
    ;
}

/// A truncated step whose numerator is at most `k` direction lengths lands
/// within `k + 1` of where it started.
pub proof fn lemma_stepped_coord_drift(x: int, t: int, d2: int, k: int)
    requires
        d2 >= 1,
        k >= 0,
        t * t <= k * k * d2,
    ensures
        x - k - 1 <= stepped_coord(x, t, d2) <= x + k + 1,
{
    lemma_fdiv_sqrt_small(t, d2, k);
    assert((-t) * (-t) == t * t) by (nonlinear_arith);
    lemma_fdiv_sqrt_small(-t, d2, k);
}

/// One coordinate of a truncated step: returns `stepped_coord(x, t, d2)`.
/// `t` is the numerator `dist * delta` of the step along this axis and `d2`
/// the squared length of the direction vector.
fn step_coord(x: i32, t: i64, d2: i64) -> (r: i32)
    requires
        1 <= d2 <= 100_000_000_000_000_000,
        t * t <= (STEP_LIMIT as int) * (STEP_LIMIT as int) * d2,
        -COORD_LIMIT <= x <= COORD_LIMIT,
    ensures
        r as int == stepped_coord(x as int, t as int, d2 as int),
        x - STEP_LIMIT - 1 <= r as int <= x + STEP_LIMIT + 1,
{
    proof {
        assert(-600_000_000_000_000 <= t <= 600_000_000_000_000) by (nonlinear_arith)
            requires
                t * t <= 1_000_000_000_000 * d2,
                1 <= d2 <= 100_000_000_000_000_000,
        ;
    }
    let u: u128 = if t >= 0 {
        t as u128
    } else {
        (-t) as u128
    };
    proof {
        assert(u * u <= 1_000_000_000_000_000_000_000_000_000_000u128) by (nonlinear_arith)
            requires
                u <= 600_000_000_000_000,
        ;
        assert((u as int) * (u as int) == (t as int) * (t as int)) by (nonlinear_arith)
            requires
                u as int == if t as int >= 0 { t as int } else { -(t as int) },
        ;
    }
    let q: u128 = (u * u) / (d2 as u128);
    let k: u128 = isqrt(q);
    proof {
        lemma_fdiv_sqrt_nonneg(u as int, d2 as int);
        lemma_floor_sqrt_bounds(q as nat);
        assert(k <= STEP_LIMIT) by (nonlinear_arith)
            requires
                k * k * d2 <= u * u,
                u * u <= (STEP_LIMIT as int) * (STEP_LIMIT as int) * d2,
                d2 >= 1,
                k >= 0,
                k as int == fdiv_sqrt(u as int, d2 as int),
        ;
    }
    let ex: bool = k * k * (d2 as u128) == u * u;
    let fd: i64 = if t >= 0 {
        k as i64
    } else if ex {
        -(k as i64)
    } else {
        -(k as i64) - 1
    };
    proof {
        assert(fd as int == fdiv_sqrt(t as int, d2 as int));
    }
    let cd: i64 = if ex {
        fd
    } else {
        fd + 1
    };
    proof {
        if t > 0 {
            assert(cd as int == cdiv_sqrt(t as int, d2 as int));
        } else if t == 0 {
            assert(u == 0);
            assert(q == 0);
            assert(k * k * (d2 as u128) == 0) by (nonlinear_arith)
                requires
                    k == 0,
            ;
            assert(cd as int == cdiv_sqrt(t as int, d2 as int));
        } else {
            assert(cd as int == cdiv_sqrt(t as int, d2 as int));
        }
    }
    let f: i64 = x as i64 + fd;
    let res: i64 = if f >= 0 {
        f
    } else {
        x as i64 + cd
    };
    res as i32
}

/// A displacement between two points.
pub struct Vector {
    pub x: i32,
    pub y: i32,
}

impl Vector {
    /// The displacement that carries `start` onto `end`.
    pub fn from(start: &Point, end: &Point) -> (v: Self)
        requires
            start.in_bounds(),
            end.in_bounds(),
        ensures
            v.x == end.x - start.x,
            v.y == end.y - start.y,
    {
        Vector { x: end.x - start.x, y: end.y - start.y }
    }
}

/// One of the nine admissible movement directions: the eight compass
/// directions, each a unit vector (a diagonal has components 1/sqrt(2)),
/// and standing still.
#[derive(Copy, Clone, PartialEq, Eq, Structural, Debug)]
pub enum Dir {
    NorthEast,
    East,
    SouthEast,
    North,
    Stay,
    South,
    NorthWest,
    West,
    SouthWest,
}

/// Sign of the x component of a direction's unit vector.
pub open spec fn dir_sx(d: Dir) -> int {
    match d {
        Dir::NorthEast | Dir::East | Dir::SouthEast => 1,
        Dir::North | Dir::Stay | Dir::South => 0,
        Dir::NorthWest | Dir::West | Dir::SouthWest => -1,
    }
}

/// Sign of the y component of a direction's unit vector.
pub open spec fn dir_sy(d: Dir) -> int {
    match d {
        Dir::NorthEast | Dir::North | Dir::NorthWest => 1,
        Dir::East | Dir::Stay | Dir::West => 0,
        Dir::SouthEast | Dir::South | Dir::SouthWest => -1,
    }
}

/// Whether the direction is a diagonal (both components of size 1/sqrt(2)).
pub open spec fn dir_diag(d: Dir) -> bool {
    dir_sx(d) != 0 && dir_sy(d) != 0
}

impl Point {
    /// Both coordinates within the geometry's working range.
    pub open spec fn in_bounds(self) -> bool {
        -COORD_LIMIT <= self.x <= COORD_LIMIT && -COORD_LIMIT <= self.y <= COORD_LIMIT
    }

    /// The integer Euclidean distance between two points: the exact distance
    /// truncated to a whole number.
    pub open spec fn range_spec(self, other: Point) -> int {
        floor_sqrt(dist2(self, other) as nat) as int
    }

    /// Euclidean distance truncated to an integer.
    pub fn range(&self, other: &Point) -> (r: i32)
        requires
            self.in_bounds(),
            other.in_bounds(),
        ensures
            r as int == self.range_spec(*other),
            0 <= r <= 300_000_000,
    {
        let dx: i64 = self.x as i64 - other.x as i64;
        let dy: i64 = self.y as i64 - other.y as i64;
        proof {
            assert(0 <= dx * dx <= 40_000_000_000_000_000 && 0 <= dy * dy
                <= 40_000_000_000_000_000) by (nonlinear_arith)
                requires
                    -200_000_000 <= dx <= 200_000_000,
                    -200_000_000 <= dy <= 200_000_000,
            ;
        }
        let d2: u128 = (dx * dx + dy * dy) as u128;
        let r: u128 = isqrt(d2);
        proof {
            lemma_floor_sqrt_bounds(d2 as nat);
            assert(r <= 300_000_000) by (nonlinear_arith)
                requires
                    r * r <= d2,
                    d2 <= 80_000_000_000_000_000,
            ;
            assert(d2 as int == dist2(*self, *other));
        }
        r as i32
    }

    /// Where a move of `dist` units from `p` toward `target` lands: on
    /// `target` itself when the exact distance is at most `dist` (the snap
    /// case, `dist2 <= dist * dist`), otherwise `dist` units along the
    /// straight line toward `target`, each coordinate truncated toward zero.
    pub open spec fn move_to_spec(p: Point, target: Point, dist: int) -> Point {
        let d2 = dist2(p, target);
        if d2 <= dist * dist {
            target
        } else {
            Point {
                x: stepped_coord(p.x as int, dist * (target.x - p.x), d2) as i32,
                y: stepped_coord(p.y as int, dist * (target.y - p.y), d2) as i32,
            }
        }
    }

    /// Advance up to `distance` units toward `target`, snapping onto it when
    /// it is at most `distance` away.
    pub fn move_to(&mut self, target: &Point, distance: u32)
        requires
            old(self).in_bounds(),
            target.in_bounds(),
            distance <= STEP_LIMIT,
        ensures
            *final(self) == Point::move_to_spec(*old(self), *target, distance as int),
            *final(self) == *target || (old(self).x - STEP_LIMIT - 1 <= final(self).x <= old(
                self,
            ).x + STEP_LIMIT + 1 && old(self).y - STEP_LIMIT - 1 <= final(self).y <= old(self).y
                + STEP_LIMIT + 1),
    {
        let dx: i64 = target.x as i64 - self.x as i64;
        let dy: i64 = target.y as i64 - self.y as i64;
        proof {
            assert(0 <= dx * dx <= 40_000_000_000_000_000 && 0 <= dy * dy
                <= 40_000_000_000_000_000) by (nonlinear_arith)
                requires
                    -200_000_000 <= dx <= 200_000_000,
                    -200_000_000 <= dy <= 200_000_000,
            ;
        }
        let d2: i64 = dx * dx + dy * dy;
        let dist: i64 = distance as i64;
        proof {
            assert((self.x - target.x) * (self.x - target.x) == dx * dx && (self.y - target.y) * (
            self.y - target.y) == dy * dy) by (nonlinear_arith)
                requires
                    dx == target.x - self.x,
                    dy == target.y - self.y,
            ;
            assert(dist2(*self, *target) == d2);
            assert(0 <= dist * dist <= 1_000_000_000_000 && -200_000_000_000_000 <= dist * dx
                <= 200_000_000_000_000 && -200_000_000_000_000 <= dist * dy
                <= 200_000_000_000_000) by (nonlinear_arith)
                requires
                    0 <= dist <= 1_000_000,
                    -200_000_000 <= dx <= 200_000_000,
                    -200_000_000 <= dy <= 200_000_000,
            ;
        }
        if d2 <= dist * dist {
            self.x = target.x;
            self.y = target.y;
        } else {
            let tx: i64 = dist * dx;
            let ty: i64 = dist * dy;
            proof {
                assert(tx * tx <= (STEP_LIMIT as int) * (STEP_LIMIT as int) * d2 && ty * ty
                    <= (STEP_LIMIT as int) * (STEP_LIMIT as int) * d2 && tx == dist * dx && ty
                    == dist * dy) by (nonlinear_arith)
                    requires
                        0 <= dist <= STEP_LIMIT as int,
                        tx == dist * dx,
                        ty == dist * dy,
                        dx * dx <= d2,
                        dy * dy <= d2,
                        d2 == dx * dx + dy * dy,
                ;
            }
            let nx = step_coord(self.x, tx, d2);
            let ny = step_coord(self.y, ty, d2);
            self.x = nx;
            self.y = ny;
        }
    }

    /// Where a move of `dist` units along direction `d` from `p` lands: a
    /// whole `dist` along an axis, `dist / sqrt(2)` along each axis of a
    /// diagonal, every coordinate truncated toward zero.
    pub open spec fn move_dir_spec(p: Point, d: Dir, dist: int) -> Point {
        if dir_diag(d) {
            Point {
                x: stepped_coord(p.x as int, dir_sx(d) * dist, 2) as i32,
                y: stepped_coord(p.y as int, dir_sy(d) * dist, 2) as i32,
            }
        } else {
            Point { x: (p.x + dir_sx(d) * dist) as i32, y: (p.y + dir_sy(d) * dist) as i32 }
        }
    }

    /// Advance `distance` units along the given direction.
    pub fn move_to_dir(&mut self, direction: Dir, distance: u32)
        requires
            old(self).in_bounds(),
            distance <= STEP_LIMIT,
        ensures
            *final(self) == Point::move_dir_spec(*old(self), direction, distance as int),
    {
        let diag = match direction {
            Dir::NorthEast | Dir::SouthEast | Dir::NorthWest | Dir::SouthWest => true,
            _ => false,
        };
        if diag {
            let t: i64 = distance as i64;
            proof {
                assert(t * t <= (STEP_LIMIT as int) * (STEP_LIMIT as int) * 2 && (-t) * (-t)
                    <= (STEP_LIMIT as int) * (STEP_LIMIT as int) * 2) by (nonlinear_arith)
                    requires
                        0 <= t <= STEP_LIMIT as int,
                ;
            }
            let east = match direction {
                Dir::NorthEast | Dir::SouthEast => true,
                _ => false,
            };
            let north = match direction {
                Dir::NorthEast | Dir::NorthWest => true,
                _ => false,
            };
            let nx = if east {
                step_coord(self.x, t, 2)
            } else {
                step_coord(self.x, -t, 2)
            };
            let ny = if north {
                step_coord(self.y, t, 2)
            } else {
                step_coord(self.y, -t, 2)
            };
            self.x = nx;
            self.y = ny;
        } else {
            let d: i32 = distance as i32;
            match direction {
                Dir::East => {
                    self.x = self.x + d;
                },
                Dir::West => {
                    self.x = self.x - d;
                },
                Dir::North => {
                    self.y = self.y + d;
                },
                Dir::South => {
                    self.y = self.y - d;
                },
                _ => {},
            }
        }
    }
}

} // verus!
