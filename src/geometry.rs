use vstd::prelude::*;

verus! {

/// Fixed-point units per world unit: world coordinates are multiplied by
/// this factor and rounded to integers.
pub const UNITS_PER_WORLD: i64 = 65536;

/// Planet radius in world units; also the factor of the subdivision
/// threshold (`distance² < scale² · SCALE`).
pub const SCALE: u128 = 100;

/// `SCALE · UNITS_PER_WORLD²`: the subdivision threshold of a root patch,
/// in squared fixed-point units.
pub const SUBDIVIDE_LIMIT: u128 = 429496729600;

/// `1.5 · SUBDIVIDE_LIMIT`: the collapse threshold of a root patch, in
/// squared fixed-point units.
pub const COLLAPSE_LIMIT: u128 = 644245094400;

/// A point in world space, in fixed-point units.
#[derive(Clone, Copy, Debug, PartialEq, Eq, Structural)]
pub struct Point {
    pub x: i32,
    pub y: i32,
    pub z: i32,
}

/// Squared Euclidean distance between two points.
pub open spec fn dist2(a: Point, b: Point) -> nat {
    let dx = a.x - b.x;
    let dy = a.y - b.y;
    let dz = a.z - b.z;
    (dx * dx + dy * dy + dz * dz) as nat
}

/// The smallest squared distance from `p` to any point of `pts`;
/// `u128::MAX` (no distance reaches it) for an empty sequence.
pub open spec fn min_dist2(pts: Seq<Point>, p: Point) -> nat
    decreases pts.len(),
{
    if pts.len() == 0 {
        u128::MAX as nat
    } else {
        let rest = min_dist2(pts.drop_last(), p);
        let d = dist2(pts.last(), p);
        if d < rest {
            d
        } else {
            rest
        }
    }
}

/// `4^n`.
pub open spec fn pow4(n: nat) -> nat
    decreases n,
{
    if n == 0 {
        1
    } else {
        4 * pow4((n - 1) as nat)
    }
}

/// A patch at depth `level` has scale `2^-level`; it subdivides when the
/// viewer is closer than `scale² · SCALE` world units squared.
pub open spec fn subdivide_due(d: nat, level: nat) -> bool {
    d * pow4(level) < SUBDIVIDE_LIMIT
}

/// A branch at depth `level` collapses when the viewer is farther than
/// `scale² · SCALE · 1.5` world units squared.
pub open spec fn collapse_due(d: nat, level: nat) -> bool {
    d * pow4(level) > COLLAPSE_LIMIT
}

proof fn lemma_pow4_positive(n: nat)
    ensures
        pow4(n) >= 1,
    decreases n,
{
    if n > 0 {
        lemma_pow4_positive((n - 1) as nat);
    }
}

proof fn lemma_pow4_mono(m: nat, n: nat)
    requires
        m <= n,
    ensures
        pow4(m) <= pow4(n),
    decreases n,
{
    if m < n {
        lemma_pow4_mono(m, (n - 1) as nat);
        lemma_pow4_positive((n - 1) as nat);
    }
}

proof fn lemma_pow4_32()
    ensures
        pow4(32) == 0x1_0000_0000_0000_0000,
{
    reveal_with_fuel(pow4, 33);
}

/// `4^min(level, 32)`.
fn pow4_capped(level: usize) -> (r: u128)
    ensures
        r == pow4(if level < 32 { level as nat } else { 32 }),
        1 <= r <= 0x1_0000_0000_0000_0000,
{
    let top: usize = if level < 32 { level } else { 32 };
    let mut r: u128 = 1;
    let mut i: usize = 0;
    proof {
        lemma_pow4_32();
    }
    while i < top
        invariant
            i <= top <= 32,
            r == pow4(i as nat),
            1 <= r <= pow4(32),
        decreases top - i,
    {
        proof {
            lemma_pow4_mono((i + 1) as nat, 32);
            lemma_pow4_32();
        }
        r = r * 4;
        i += 1;
    }
    proof {
        lemma_pow4_32();
    }
    r
}

/// Division facts: `d * q < t` exactly when `d <= (t - 1) / q`, and
/// `d * q > t` exactly when `d > t / q`.
proof fn lemma_div_compare(d: nat, q: nat, t: nat)
    requires
        q > 0,
        t > 0,
    ensures
        (d * q < t) == (d <= (t - 1) as nat / q),
        (d * q > t) == (d > t / q),
{
    let k = (t - 1) as nat / q;
    let r = (t - 1) as nat % q;
    vstd::arithmetic::div_mod::lemma_fundamental_div_mod((t - 1) as int, q as int);
    assert((d * q < t) == (d <= k)) by (nonlinear_arith)
        requires
            (t - 1) == k * q + r,
            0 <= r < q,
            d >= 0,
            k >= 0,
    ;
    let k2 = t / q;
    let r2 = t % q;
    vstd::arithmetic::div_mod::lemma_fundamental_div_mod(t as int, q as int);
    assert((d * q > t) == (d > k2)) by (nonlinear_arith)
        requires
            t == k2 * q + r2,
            0 <= r2 < q,
            d >= 0,
            k2 >= 0,
    ;
}

/// Whether a leaf at depth `level` whose sampler answered `d` subdivides.
pub fn should_subdivide(d: u128, level: usize) -> (r: bool)
    ensures
        r == subdivide_due(d as nat, level as nat),
{
    let q = pow4_capped(level);
    proof {
        lemma_pow4_positive(32);
        lemma_div_compare(d as nat, q as nat, SUBDIVIDE_LIMIT as nat);
        if level >= 32 {
            lemma_pow4_32();
            lemma_pow4_mono(32, level as nat);
            assert(d * pow4(level as nat) >= d * pow4(32)) by (nonlinear_arith)
                requires pow4(level as nat) >= pow4(32), d >= 0;
            assert(d >= 1 ==> d * pow4(32) >= pow4(32)) by (nonlinear_arith)
                requires pow4(32) >= 1;
        }
    }
    d <= (SUBDIVIDE_LIMIT - 1) / q
}

/// Whether a branch at depth `level` whose sampler answered `d` collapses.
pub fn should_collapse(d: u128, level: usize) -> (r: bool)
    ensures
        r == collapse_due(d as nat, level as nat),
{
    let q = pow4_capped(level);
    proof {
        lemma_pow4_positive(32);
        lemma_div_compare(d as nat, q as nat, COLLAPSE_LIMIT as nat);
        if level >= 32 {
            lemma_pow4_32();
            lemma_pow4_mono(32, level as nat);
            assert(d * pow4(level as nat) >= d * pow4(32)) by (nonlinear_arith)
                requires pow4(level as nat) >= pow4(32), d >= 0;
            assert(d >= 1 ==> d * pow4(32) >= pow4(32)) by (nonlinear_arith)
                requires pow4(32) >= 1;
        }
    }
    d > COLLAPSE_LIMIT / q
}

/// Every squared distance between two points lies below `u128::MAX`.
pub proof fn lemma_dist2_bound(a: Point, b: Point)
    ensures
        dist2(a, b) < u128::MAX,
{
    let dx = a.x - b.x;
    let dy = a.y - b.y;
    let dz = a.z - b.z;
    assert(dx * dx <= 0x1_0000_0000_0000_0000) by (nonlinear_arith)
        requires -0x1_0000_0000 <= dx <= 0x1_0000_0000;
    assert(dy * dy <= 0x1_0000_0000_0000_0000) by (nonlinear_arith)
        requires -0x1_0000_0000 <= dy <= 0x1_0000_0000;
    assert(dz * dz <= 0x1_0000_0000_0000_0000) by (nonlinear_arith)
        requires -0x1_0000_0000 <= dz <= 0x1_0000_0000;
    assert(dx * dx >= 0 && dy * dy >= 0 && dz * dz >= 0) by (nonlinear_arith);
}

fn abs_diff(a: i32, b: i32) -> (r: u128)
    ensures
        r == a - b || r == b - a,
        r <= 0x1_0000_0000,
{
    if a >= b {
        (a as i64 - b as i64) as u128
    } else {
        (b as i64 - a as i64) as u128
    }
}

/// Squared distance between two points, exactly.
pub fn distance2(a: Point, b: Point) -> (r: u128)
    ensures
        r == dist2(a, b),
        r < u128::MAX,
{
    proof {
        lemma_dist2_bound(a, b);
    }
    let dx = abs_diff(a.x, b.x);
    let dy = abs_diff(a.y, b.y);
    let dz = abs_diff(a.z, b.z);
    assert(dx * dx == (a.x - b.x) * (a.x - b.x)) by (nonlinear_arith)
        requires dx == (a.x - b.x) || dx == -(a.x - b.x);
    assert(dy * dy == (a.y - b.y) * (a.y - b.y)) by (nonlinear_arith)
        requires dy == (a.y - b.y) || dy == -(a.y - b.y);
    assert(dz * dz == (a.z - b.z) * (a.z - b.z)) by (nonlinear_arith)
        requires dz == (a.z - b.z) || dz == -(a.z - b.z);
    dx * dx + dy * dy + dz * dz
}

/// The sample positions of one patch, answering nearest-distance queries.
pub struct PointSampler {
    points: Vec<Point>,
}

impl PointSampler {
    pub closed spec fn points(&self) -> Seq<Point> {
        self.points@
    }

    /// A sampler over the given positions.
    pub fn new(points: Vec<Point>) -> (r: Self)
        ensures
            r.points() == points@,
    {
        PointSampler { points }
    }

    /// A sampler with no positions: every query answers `u128::MAX`.
    pub fn empty() -> (r: Self)
        ensures
            r.points() == Seq::<Point>::empty(),
    {
        PointSampler { points: Vec::new() }
    }

    /// The smallest squared distance from `point` to a stored position, or
    /// `u128::MAX` when none is stored.
    pub fn distance2(&self, point: Point) -> (r: u128)
        ensures
            r == min_dist2(self.points(), point),
    {
        let mut shortest: u128 = u128::MAX;
        let mut i: usize = 0;
        while i < self.points.len()
            invariant
                i <= self.points@.len(),
                shortest == min_dist2(self.points@.subrange(0, i as int), point),
            decreases self.points@.len() - i,
        {
            let dist = distance2(self.points[i], point);
            proof {
                let s = self.points@.subrange(0, i + 1);
                assert(s.drop_last() =~= self.points@.subrange(0, i as int));
            }
            if dist < shortest {
                shortest = dist;
            }
            i += 1;
        }
        assert(self.points@.subrange(0, i as int) =~= self.points@);
        shortest
    }
}

/// The two thresholds leave a band between them: no distance is due both
/// to subdivide and to collapse, and a distance whose scaled value lies
/// from the subdivision threshold up to the collapse threshold is due to
/// neither.
pub proof fn lemma_hysteresis_band(d: nat, level: nat)
    ensures
        subdivide_due(d, level) ==> !collapse_due(d, level),
        SUBDIVIDE_LIMIT <= d * pow4(level) <= COLLAPSE_LIMIT ==> !subdivide_due(d, level)
            && !collapse_due(d, level),
{
}

/// An empty sampler answers a distance above every real squared distance,
/// and a leaf holding it is never due to subdivide, at any level.
pub proof fn lemma_empty_sampler_never_subdivides(viewer: Point, level: nat)
    ensures
        forall|a: Point, b: Point|
            #[trigger] dist2(a, b) < min_dist2(Seq::<Point>::empty(), viewer),
        !subdivide_due(min_dist2(Seq::<Point>::empty(), viewer), level),
{
    assert forall|a: Point, b: Point|
        #[trigger] dist2(a, b) < min_dist2(Seq::<Point>::empty(), viewer) by {
        lemma_dist2_bound(a, b);
    }
    lemma_pow4_positive(level);
    let m = u128::MAX as nat;
    assert(m * pow4(level) >= m) by (nonlinear_arith)
        requires pow4(level) >= 1;
}

} // verus!
